//! Checks and text that surround the assembly of a litmus test: section
//! names, section addresses, the linker script that places each thread, and
//! the restrictions on assembly text.
use vstd::prelude::*;
use vstd::string::{StrSliceExecFns, StringExecFns};
use crate::analysis::{hex_digits, lower_hex_addr};

verus! {

/// The prefix of the section that holds a thread's code.
pub const THREAD_PREFIX: &'static str = "litmus_";

/// An ASCII letter.
pub open spec fn is_alpha(c: char) -> bool {
    ('a' <= c && c <= 'z') || ('A' <= c && c <= 'Z')
}

/// An ASCII letter or digit.
pub open spec fn is_alnum(c: char) -> bool {
    is_alpha(c) || ('0' <= c && c <= '9')
}

/// A section name: letters, digits and underscores, starting with a letter,
/// and not starting with the thread prefix.
pub open spec fn valid_section_name(s: Seq<char>) -> bool {
    &&& (s.len() > 0 ==> is_alpha(s[0]))
    &&& forall|i: int| 0 <= i < s.len() ==> is_alnum(#[trigger] s[i]) || s[i] == '_'
    &&& !(s.len() >= 7 && s.subrange(0, 7) == seq!['l', 'i', 't', 'm', 'u', 's', '_'])
}

fn alpha(c: char) -> (b: bool)
    ensures
        b == is_alpha(c),
{
    ('a' <= c && c <= 'z') || ('A' <= c && c <= 'Z')
}

fn alnum(c: char) -> (b: bool)
    ensures
        b == is_alnum(c),
{
    alpha(c) || ('0' <= c && c <= '9')
}

/// Whether `name` can name an extra section of a litmus test.
pub fn validate_section_name(name: &str) -> (b: bool)
    ensures
        b == valid_section_name(name@),
{
    let n = name.unicode_len();
    let mut i: usize = 0;
    while i < n
        invariant
            n == name@.len(),
            i <= n,
            n > 0 && i > 0 ==> is_alpha(name@[0]),
            forall|j: int| 0 <= j < i ==> is_alnum(#[trigger] name@[j]) || name@[j] == '_',
        decreases n - i,
    {
        let c = name.get_char(i);
        if i == 0 && !alpha(c) {
            return false;
        }
        if !(alnum(c) || c == '_') {
            return false;
        }
        i += 1;
    }
    if n >= 7 {
        let ghost prefix = seq!['l', 'i', 't', 'm', 'u', 's', '_'];
        let same = name.get_char(0) == 'l' && name.get_char(1) == 'i' && name.get_char(2) == 't'
            && name.get_char(3) == 'm' && name.get_char(4) == 'u' && name.get_char(5) == 's'
            && name.get_char(6) == '_';
        if same {
            assert(name@.subrange(0, 7) =~= prefix);
            return false;
        } else {
            assert(name@.subrange(0, 7) != prefix) by {
                if name@.subrange(0, 7) == prefix {
                    assert(name@[0] == name@.subrange(0, 7)[0]);
                    assert(name@[1] == name@.subrange(0, 7)[1]);
                    assert(name@[2] == name@.subrange(0, 7)[2]);
                    assert(name@[3] == name@.subrange(0, 7)[3]);
                    assert(name@[4] == name@.subrange(0, 7)[4]);
                    assert(name@[5] == name@.subrange(0, 7)[5]);
                    assert(name@[6] == name@.subrange(0, 7)[6]);
                }
            }
        }
    }
    true
}

/// The value of a hexadecimal digit.
pub open spec fn hex_digit_value(c: char) -> Option<nat> {
    if '0' <= c && c <= '9' {
        Some((c as nat - '0' as nat) as nat)
    } else if 'a' <= c && c <= 'f' {
        Some((c as nat - 'a' as nat + 10) as nat)
    } else if 'A' <= c && c <= 'F' {
        Some((c as nat - 'A' as nat + 10) as nat)
    } else {
        None
    }
}

/// The value of a string of hexadecimal digits, if every character is one.
pub open spec fn hex_value(s: Seq<char>) -> Option<nat>
    decreases s.len(),
{
    if s.len() == 0 {
        Some(0)
    } else {
        match (hex_value(s.subrange(0, s.len() - 1)), hex_digit_value(s[s.len() - 1])) {
            (Some(v), Some(d)) => Some(v * 16 + d),
            _ => None,
        }
    }
}

/// What `u64::from_str_radix(s, 16)` accepts: an optional `+`, then at least
/// one hexadecimal digit, with a value that fits in 64 bits.
pub open spec fn parse_hex_u64(s: Seq<char>) -> Option<u64> {
    let digits = if s.len() > 0 && s[0] == '+' {
        s.subrange(1, s.len() as int)
    } else {
        s
    };
    if digits.len() == 0 {
        None
    } else {
        match hex_value(digits) {
            Some(v) => if v <= u64::MAX {
                Some(v as u64)
            } else {
                None
            },
            None => None,
        }
    }
}

fn hex_digit(c: char) -> (r: Option<u64>)
    ensures
        r matches Some(d) ==> hex_digit_value(c) == Some(d as nat) && d < 16,
        r is None ==> hex_digit_value(c) is None,
{
    if '0' <= c && c <= '9' {
        Some((c as u32 - '0' as u32) as u64)
    } else if 'a' <= c && c <= 'f' {
        Some((c as u32 - 'a' as u32 + 10) as u64)
    } else if 'A' <= c && c <= 'F' {
        Some((c as u32 - 'A' as u32 + 10) as u64)
    } else {
        None
    }
}

proof fn lemma_hex_value_grows(s: Seq<char>, v: nat)
    requires
        hex_value(s) == Some(v),
    ensures
        forall|k: int| 0 <= k <= s.len() ==> #[trigger] hex_value(s.subrange(0, k)) is Some && hex_value(s.subrange(0, k))->0 <= v,
    decreases s.len(),
{
    if s.len() > 0 {
        let init = s.subrange(0, s.len() - 1);
        let w = hex_value(init)->0;
        lemma_hex_value_grows(init, w);
        assert forall|k: int| 0 <= k <= s.len() implies #[trigger] hex_value(s.subrange(0, k)) is Some && hex_value(s.subrange(0, k))->0 <= v by {
            if k < s.len() {
                assert(init.subrange(0, k) =~= s.subrange(0, k));
            } else {
                assert(s.subrange(0, k) =~= s);
            }
        }
    } else {
        assert forall|k: int| 0 <= k <= s.len() implies #[trigger] hex_value(s.subrange(0, k)) is Some && hex_value(s.subrange(0, k))->0 <= v by {
            assert(s.subrange(0, k) =~= s);
        }
    }
}

/// Reads the hexadecimal number of `s` from character `start` on, as
/// `u64::from_str_radix(.., 16)` does.
pub fn parse_hex(s: &str, start: usize) -> (r: Option<u64>)
    requires
        start <= s@.len(),
    ensures
        r == parse_hex_u64(s@.subrange(start as int, s@.len() as int)),
{
    let n = s.unicode_len();
    let ghost whole = s@.subrange(start as int, n as int);
    let mut from = start;
    if from < n && s.get_char(from) == '+' {
        from += 1;
    }
    let ghost digits = s@.subrange(from as int, n as int);
    assert(digits =~= if whole.len() > 0 && whole[0] == '+' { whole.subrange(1, whole.len() as int) } else { whole });
    if from == n {
        return None;
    }
    let mut v: u64 = 0;
    let mut i: usize = from;
    assert(digits.subrange(0, 0) =~= Seq::<char>::empty());
    while i < n
        invariant
            n == s@.len(),
            from <= i <= n,
            digits == s@.subrange(from as int, n as int),
            whole == s@.subrange(start as int, s@.len() as int),
            digits == (if whole.len() > 0 && whole[0] == '+' { whole.subrange(1, whole.len() as int) } else { whole }),
            digits.len() > 0,
            hex_value(digits.subrange(0, i - from)) == Some(v as nat),
        decreases n - i,
    {
        let c = s.get_char(i);
        let ghost pre = digits.subrange(0, i - from + 1);
        assert(pre.subrange(0, pre.len() - 1) =~= digits.subrange(0, i - from));
        assert(pre[pre.len() - 1] == c);
        match hex_digit(c) {
            Some(d) => {
                if v > (u64::MAX - d) / 16 {
                    proof {
                        assert(hex_value(pre) == Some(v as nat * 16 + d as nat));
                        assert(v as nat * 16 + d as nat > u64::MAX) by (nonlinear_arith)
                            requires
                                v > (u64::MAX - d) / 16,
                                d < 16,
                        ;
                        if hex_value(digits) is Some {
                            lemma_hex_value_grows(digits, hex_value(digits)->0);
                            assert(hex_value(digits.subrange(0, i - from + 1)) is Some);
                            assert(hex_value(digits)->0 > u64::MAX);
                        }
                    }
                    return None;
                }
                assert(v * 16 + d <= u64::MAX) by (nonlinear_arith)
                    requires
                        v <= (u64::MAX - d) / 16,
                        d < 16,
                ;
                v = v * 16 + d;
            },
            None => {
                proof {
                    assert(hex_value(pre) is None);
                    if hex_value(digits) is Some {
                        lemma_hex_value_grows(digits, hex_value(digits)->0);
                        assert(hex_value(digits.subrange(0, i - from + 1)) is Some);
                    }
                }
                return None;
            },
        }
        i += 1;
    }
    assert(digits.subrange(0, n - from) =~= digits);
    Some(v)
}

/// The address of a section: `0x` or `#x`, then hexadecimal digits.
pub fn parse_address(addr: &str) -> (r: Result<u64, String>)
    ensures
        addr@.len() < 2 ==> r is Err,
        addr@.len() >= 2 && !(addr@[0] == '0' || addr@[0] == '#') ==> r is Err,
        addr@.len() >= 2 && addr@[1] != 'x' ==> r is Err,
        addr@.len() >= 2 && (addr@[0] == '0' || addr@[0] == '#') && addr@[1] == 'x' ==> match r {
            Ok(v) => parse_hex_u64(addr@.subrange(2, addr@.len() as int)) == Some(v),
            Err(_) => parse_hex_u64(addr@.subrange(2, addr@.len() as int)) is None,
        },
{
    let n = addr.unicode_len();
    if n < 2 {
        let mut msg = String::from_str("Address ");
        msg.append(addr);
        msg.append(" is too short, it must have the form 0xHEX or #xHEX");
        return Err(msg);
    }
    let c0 = addr.get_char(0);
    let c1 = addr.get_char(1);
    if !((c0 == '0' || c0 == '#') && c1 == 'x') {
        let mut msg = String::from_str("Address ");
        msg.append(addr);
        msg.append(" must start with either `0x' or `#x'");
        return Err(msg);
    }
    match parse_hex(addr, 2) {
        Some(v) => Ok(v),
        None => {
            let mut msg = String::from_str("Cannot parse ");
            msg.append(addr);
            msg.append(" as hexadecimal");
            Err(msg)
        },
    }
}

/// A character that assembly text may hold: ASCII, and no control character
/// other than whitespace.
pub open spec fn is_text_char(c: char) -> bool {
    (c as u32) < 128 && ((c as u32) >= 32 && (c as u32) != 127 || c == ' ' || c == '\t' || c == '\n'
        || c == '\x0C' || c == '\r')
}

/// Whether `s` holds `c`.
pub open spec fn has_char(s: Seq<char>, c: char) -> bool {
    exists|i: int| 0 <= i < s.len() && s[i] == c
}

fn text_char(c: char) -> (b: bool)
    ensures
        b == is_text_char(c),
{
    let u = c as u32;
    u < 128 && (u >= 32 && u != 127 || c == ' ' || c == '\t' || c == '\n' || c == '\x0C' || c == '\r')
}

/// Checks that assembly text has no directives, is at most a thousand bytes
/// long, and holds only ASCII text.
pub fn validate_code(code: &str) -> (r: Result<(), String>)
    ensures
        match r {
            Ok(()) => {
                &&& !has_char(code@, '.')
                &&& code.len() <= 1000
                &&& forall|i: int| 0 <= i < code@.len() ==> is_text_char(#[trigger] code@[i])
            },
            Err(m) => if has_char(code@, '.') {
                m@ == "Invalid assembly in litmus"@
            } else if code.len() > 1000 {
                m@ == "Assembly in litmus thread too long"@
            } else {
                m@ == "Assembly block can contain only ascii text"@ && exists|i: int|
                    0 <= i < code@.len() && !is_text_char(#[trigger] code@[i])
            },
        },
{
    let n = code.unicode_len();
    let mut i: usize = 0;
    while i < n
        invariant
            n == code@.len(),
            i <= n,
            forall|j: int| 0 <= j < i ==> code@[j] != '.',
        decreases n - i,
    {
        if code.get_char(i) == '.' {
            return Err(String::from_str("Invalid assembly in litmus"));
        }
        i += 1;
    }
    if code.len() > 1000 {
        return Err(String::from_str("Assembly in litmus thread too long"));
    }
    let mut k: usize = 0;
    while k < n
        invariant
            n == code@.len(),
            k <= n,
            !has_char(code@, '.'),
            code.len() <= 1000,
            forall|j: int| 0 <= j < k ==> is_text_char(#[trigger] code@[j]),
        decreases n - k,
    {
        if !text_char(code.get_char(k)) {
            return Err(String::from_str("Assembly block can contain only ascii text"));
        }
        k += 1;
    }
    Ok(())
}

/// Extra code of a litmus test, placed at a given address.
#[derive(Debug)]
pub struct UnassembledSection<'a> {
    pub name: &'a str,
    pub address: u64,
    pub code: &'a str,
}

/// The linker script line that places thread `tid` at `addr`.
pub open spec fn thread_line(addr: u64, tid: Seq<char>) -> Seq<char> {
    "  . = 0x"@ + hex_digits(addr) + ";\n  litmus_"@ + tid + " : { *(litmus_"@ + tid + ") }\n"@
}

/// The linker script line that places a section at its address.
pub open spec fn section_line<'a>(s: UnassembledSection<'a>) -> Seq<char> {
    "  . = 0x"@ + hex_digits(s.address) + ";\n  "@ + s.name@ + " : { *("@ + s.name@ + ") }\n"@
}

/// The placement lines from thread `t` and section `s` on, the next thread
/// going at `addr`: threads and sections in address order, a section first
/// where the thread would not lie below it.
pub open spec fn script_lines<'a>(
    threads: Seq<String>,
    sections: Seq<UnassembledSection<'a>>,
    t: int,
    s: int,
    addr: int,
    stride: int,
) -> Seq<char>
    decreases (threads.len() - t) + (sections.len() - s),
{
    if t < 0 || s < 0 || t > threads.len() || s > sections.len() {
        seq![]
    } else if t < threads.len() && (s == sections.len() || addr < sections[s].address) {
        thread_line(addr as u64, threads[t]@) + script_lines(threads, sections, t + 1, s, addr + stride, stride)
    } else if s < sections.len() {
        section_line(sections[s]) + script_lines(threads, sections, t, s + 1, addr, stride)
    } else {
        seq![]
    }
}

/// The whole linker script.
pub open spec fn linker_script<'a>(
    threads: Seq<String>,
    sections: Seq<UnassembledSection<'a>>,
    base: u64,
    stride: u64,
) -> Seq<char> {
    "start = 0;\nSECTIONS\n{\n"@ + script_lines(threads, sections, 0, 0, base as int, stride as int) + "}\n"@
}

/// A linker script that places the code of each thread, `stride` bytes apart
/// from `base` on, and each extra section at its address.
pub fn generate_linker_script(
    threads: &Vec<String>,
    sections: &Vec<UnassembledSection<'_>>,
    base: u64,
    stride: u64,
) -> (r: String)
    requires
        base + threads@.len() * stride <= u64::MAX,
    ensures
        r@ == linker_script(threads@, sections@, base, stride),
{
    let mut script = String::from_str("start = 0;\nSECTIONS\n{\n");
    let ghost total = script@ + script_lines(threads@, sections@, 0, 0, base as int, stride as int);
    let mut t: usize = 0;
    let mut s: usize = 0;
    let mut addr: u64 = base;
    while t < threads.len() || s < sections.len()
        invariant
            t <= threads@.len(),
            s <= sections@.len(),
            addr == base + t * stride,
            base + threads@.len() * stride <= u64::MAX,
            script@ + script_lines(threads@, sections@, t as int, s as int, addr as int, stride as int) == total,
        decreases (threads@.len() - t) + (sections@.len() - s),
    {
        let ghost rest = script_lines(threads@, sections@, t as int, s as int, addr as int, stride as int);
        if t < threads.len() && (s == sections.len() || addr < sections[s].address) {
            script.append("  . = 0x");
            script.append(lower_hex_addr(addr).as_str());
            script.append(";\n  litmus_");
            script.append(threads[t].as_str());
            script.append(" : { *(litmus_");
            script.append(threads[t].as_str());
            script.append(") }\n");
            proof {
                assert(t * stride + stride == (t + 1) * stride) by (nonlinear_arith);
                assert((t + 1) * stride <= threads@.len() * stride) by (nonlinear_arith)
                    requires
                        t < threads@.len(),
                ;
            }
            addr = addr + stride;
            t += 1;
        } else {
            let sec = &sections[s];
            script.append("  . = 0x");
            script.append(lower_hex_addr(sec.address).as_str());
            script.append(";\n  ");
            script.append(sec.name);
            script.append(" : { *(");
            script.append(sec.name);
            script.append(") }\n");
            s += 1;
        }
        assert(script@ + script_lines(threads@, sections@, t as int, s as int, addr as int, stride as int) =~= total);
    }
    assert(script_lines(threads@, sections@, t as int, s as int, addr as int, stride as int) =~= Seq::<char>::empty());
    script.append("}\n");
    assert(script@ =~= linker_script(threads@, sections@, base, stride));
    script
}

/// Whether `validate_code` accepts `code`.
pub open spec fn code_ok(code: &str) -> bool {
    &&& !has_char(code@, '.')
    &&& code.len() <= 1000
    &&& forall|i: int| 0 <= i < code@.len() ==> is_text_char(#[trigger] code@[i])
}

/// The assembler input for the threads: each thread's code in its own
/// section, named with the thread prefix.
pub open spec fn threads_text<'a>(threads: Seq<(String, &'a str)>) -> Seq<char>
    decreases threads.len(),
{
    if threads.len() == 0 {
        seq![]
    } else {
        let t = threads[threads.len() - 1];
        threads_text(threads.subrange(0, threads.len() - 1)) + "\t.section litmus_"@ + t.0@ + "\n"@ + t.1@
    }
}

/// The assembler input for the extra sections.
pub open spec fn sections_text<'a>(sections: Seq<UnassembledSection<'a>>) -> Seq<char>
    decreases sections.len(),
{
    if sections.len() == 0 {
        seq![]
    } else {
        let s = sections[sections.len() - 1];
        sections_text(sections.subrange(0, sections.len() - 1)) + "\t.section "@ + s.name@ + "\n"@ + s.code@
    }
}

/// The text handed to the assembler: the threads, then the extra sections.
/// Fails when some code is not acceptable assembly or some section name is
/// not valid.
pub fn assembler_input(threads: &Vec<(String, &str)>, sections: &Vec<UnassembledSection<'_>>) -> (r: Result<
    String,
    String,
>)
    ensures
        match r {
            Ok(text) => {
                &&& forall|i: int| 0 <= i < threads@.len() ==> code_ok(#[trigger] threads@[i].1)
                &&& forall|i: int|
                    0 <= i < sections@.len() ==> code_ok((#[trigger] sections@[i]).code)
                        && valid_section_name(sections@[i].name@)
                &&& text@ == threads_text(threads@) + sections_text(sections@)
            },
            Err(_) => !(forall|i: int| 0 <= i < threads@.len() ==> code_ok(#[trigger] threads@[i].1)) || !(
            forall|i: int|
                0 <= i < sections@.len() ==> code_ok((#[trigger] sections@[i]).code) && valid_section_name(
                    sections@[i].name@,
                )),
        },
{
    let mut text = String::new();
    let mut i: usize = 0;
    while i < threads.len()
        invariant
            i <= threads@.len(),
            forall|j: int| 0 <= j < i ==> code_ok(#[trigger] threads@[j].1),
            text@ == threads_text(threads@.subrange(0, i as int)),
        decreases threads@.len() - i,
    {
        let (name, code) = (&threads[i].0, threads[i].1);
        match validate_code(code) {
            Ok(()) => {},
            Err(m) => {
                return Err(m);
            },
        }
        text.append("\t.section litmus_");
        text.append(name.as_str());
        text.append("\n");
        text.append(code);
        let ghost t = threads@.subrange(0, i + 1);
        assert(t.subrange(0, i as int) =~= threads@.subrange(0, i as int));
        i += 1;
        assert(text@ =~= threads_text(threads@.subrange(0, i as int)));
    }
    assert(threads@.subrange(0, threads@.len() as int) =~= threads@);
    let ghost head = text@;
    let mut k: usize = 0;
    while k < sections.len()
        invariant
            k <= sections@.len(),
            forall|j: int| 0 <= j < threads@.len() ==> code_ok(#[trigger] threads@[j].1),
            forall|j: int|
                0 <= j < k ==> code_ok((#[trigger] sections@[j]).code) && valid_section_name(sections@[j].name@),
            head == threads_text(threads@),
            text@ == head + sections_text(sections@.subrange(0, k as int)),
        decreases sections@.len() - k,
    {
        let section = &sections[k];
        match validate_code(section.code) {
            Ok(()) => {},
            Err(m) => {
                return Err(m);
            },
        }
        if !validate_section_name(section.name) {
            let mut m = String::from_str("Section name ");
            m.append(section.name);
            m.append(" is invalid");
            return Err(m);
        }
        text.append("\t.section ");
        text.append(section.name);
        text.append("\n");
        text.append(section.code);
        let ghost t = sections@.subrange(0, k + 1);
        assert(t.subrange(0, k as int) =~= sections@.subrange(0, k as int));
        k += 1;
        assert(text@ =~= head + sections_text(sections@.subrange(0, k as int)));
    }
    assert(sections@.subrange(0, sections@.len() as int) =~= sections@);
    Ok(text)
}

} // verus!
