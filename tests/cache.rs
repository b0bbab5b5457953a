use isla_footprint::codec::{decode_footprint, encode_footprint};
use isla_footprint::footprint::Footprint;
use isla_footprint::regset::RegLoc;
use isla_footprint::smt::Accessor;

fn sample() -> Footprint {
    let mut f = Footprint::new();
    f.register_reads.insert(RegLoc { reg: 1, accessors: vec![Accessor::Field(7), Accessor::Index(3)] });
    f.register_writes.insert(RegLoc { reg: 2, accessors: Vec::new() });
    f.register_writes_tainted.insert(RegLoc { reg: 2, accessors: Vec::new() });
    f.mem_addr_taints.regs.insert(RegLoc { reg: 1, accessors: vec![Accessor::Slice(0, 31)] });
    f.mem_addr_taints.mem = true;
    f.write_data_taints.regs.insert(RegLoc { reg: 0xffff_ffff, accessors: vec![Accessor::Index(u64::MAX)] });
    f.is_load = true;
    f.is_branch = true;
    f
}

fn same(a: &Footprint, b: &Footprint) -> bool {
    let sets = [
        (&a.write_data_taints.regs, &b.write_data_taints.regs),
        (&a.mem_addr_taints.regs, &b.mem_addr_taints.regs),
        (&a.branch_addr_taints.regs, &b.branch_addr_taints.regs),
        (&a.register_reads, &b.register_reads),
        (&a.register_writes, &b.register_writes),
        (&a.register_writes_tainted, &b.register_writes_tainted),
    ];
    for (x, y) in sets.iter() {
        if x.len() != y.len() {
            return false;
        }
        for r in &x.items {
            if !y.contains(r) {
                return false;
            }
        }
    }
    a.write_data_taints.mem == b.write_data_taints.mem
        && a.mem_addr_taints.mem == b.mem_addr_taints.mem
        && a.branch_addr_taints.mem == b.branch_addr_taints.mem
        && a.is_store == b.is_store
        && a.is_load == b.is_load
        && a.is_branch == b.is_branch
}

#[test]
fn cache_round_trip() {
    let f = sample();
    let bytes = encode_footprint(&f);
    let g = decode_footprint(&bytes).expect("decodes");
    assert!(same(&f, &g));
}

#[test]
fn cache_round_trip_empty() {
    let f = Footprint::new();
    let bytes = encode_footprint(&f);
    assert_eq!(bytes.len(), 3 * 5 + 3 * 4 + 3);
    let g = decode_footprint(&bytes).expect("decodes");
    assert!(same(&f, &g));
}

#[test]
fn cache_rejects_corrupt_files() {
    let bytes = encode_footprint(&sample());
    assert!(decode_footprint(&bytes[..bytes.len() - 1].to_vec()).is_none());
    let mut longer = bytes.clone();
    longer.push(0);
    assert!(decode_footprint(&longer).is_none());
    let mut bad_flag = bytes.clone();
    let n = bad_flag.len();
    bad_flag[n - 1] = 2;
    assert!(decode_footprint(&bad_flag).is_none());
    assert!(decode_footprint(&Vec::new()).is_none());
}

#[test]
fn cache_encoding_is_little_endian() {
    let mut f = Footprint::new();
    f.register_reads.insert(RegLoc { reg: 0x0403_0201, accessors: Vec::new() });
    let bytes = encode_footprint(&f);
    // three empty taints of five bytes each, then the count of reads
    assert_eq!(&bytes[15..19], &[1, 0, 0, 0]);
    assert_eq!(&bytes[19..23], &[1, 2, 3, 4]);
}
