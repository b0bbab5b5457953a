//! Reading an objdump listing: the instruction text of an opcode, the
//! opcode at an address, and the address of a label.
use vstd::prelude::*;
use regex::Regex;
use crate::litmus::{parse_hex, parse_hex_u64};
use crate::smt::Bits;

verus! {

/// The instruction text of each line of `objdump` that lists `opcode`, in
/// order; none when a match lacks the text or the pattern cannot be built.
pub uninterp spec fn instruction_matches(opcode: Seq<char>, objdump: Seq<char>) -> Option<Seq<Seq<char>>>;

/// `s` without leading and trailing whitespace.
pub uninterp spec fn whitespace_trimmed(s: Seq<char>) -> Seq<char>;

/// `s` with every run of whitespace replaced by one space.
pub uninterp spec fn spaces_collapsed(s: Seq<char>) -> Seq<char>;

/// The hexadecimal digits listed after the first `<label>:` heading.
pub uninterp spec fn label_digits(label: Seq<char>, objdump: Seq<char>) -> Option<Seq<char>>;

/// The hexadecimal digits of the opcode listed at address `addr`.
pub uninterp spec fn opcode_digits(addr: u64, objdump: Seq<char>) -> Option<Seq<char>>;

/// Relies on `regex::Regex::new` and `Regex::captures_iter`: the first
/// group of each match of `[0-9a-zA-Z]+:\s0*OPCODE\s+(.*)`; none when a
/// match lacks the group or the pattern cannot be built.
#[verifier::external_body]
fn instruction_captures(opcode: &str, objdump: &str) -> (r: Option<Vec<String>>)
    ensures
        r matches Some(v) ==> instruction_matches(opcode@, objdump@) == Some(v@.map_values(|s: String| s@)),
        r is None ==> instruction_matches(opcode@, objdump@) is None,
{
    let re = Regex::new(&format!(r"[0-9a-zA-Z]+:\s0*{}\s+(.*)", opcode)).ok()?;
    re.captures_iter(objdump).map(|caps| caps.get(1).map(|m| m.as_str().to_string())).collect()
}

/// Relies on `str::trim`: leading and trailing whitespace removed.
#[verifier::external_body]
fn trim_whitespace(s: &str) -> (r: String)
    ensures
        r@ == whitespace_trimmed(s@),
{
    s.trim().to_string()
}

/// The trimmed text of each match.
fn trim_all(matches: &Vec<String>) -> (r: Vec<String>)
    ensures
        r@.len() == matches@.len(),
        forall|i: int| 0 <= i < r@.len() ==> #[trigger] r@[i]@ == whitespace_trimmed(matches@[i]@),
{
    let mut r: Vec<String> = Vec::new();
    let mut i: usize = 0;
    while i < matches.len()
        invariant
            i <= matches@.len(),
            r@.len() == i,
            forall|j: int| 0 <= j < i ==> #[trigger] r@[j]@ == whitespace_trimmed(matches@[j]@),
        decreases matches@.len() - i,
    {
        r.push(trim_whitespace(matches[i].as_str()));
        i += 1;
    }
    r
}

/// Relies on `regex::Regex::replace_all` with the pattern `\s+` and the
/// replacement `" "`.
#[verifier::external_body]
fn collapse_whitespace(s: &str) -> (r: String)
    ensures
        r@ == spaces_collapsed(s@),
{
    Regex::new(r"\s+").unwrap().replace_all(s, " ").to_string()
}

/// Relies on `regex::Regex::captures`: the first group of the first match
/// of `([0-9a-fA-F]+) <LABEL>:`; none where the pattern cannot be built.
#[verifier::external_body]
fn label_capture(label: &str, objdump: &str) -> (r: Option<String>)
    ensures
        r matches Some(d) ==> label_digits(label@, objdump@) == Some(d@),
        r is None ==> label_digits(label@, objdump@) is None,
{
    let re = Regex::new(&format!(r"([0-9a-fA-F]+) <{}>:", label)).ok()?;
    re.captures(objdump).and_then(|caps| caps.get(1)).map(|m| m.as_str().to_string())
}

/// Relies on `regex::Regex::captures`: the first group of the first match
/// of `ADDR:\t([0-9a-fA-F]+) \t`, the address in lowercase hexadecimal.
#[verifier::external_body]
fn opcode_capture(addr: u64, objdump: &str) -> (r: Option<String>)
    ensures
        r matches Some(d) ==> opcode_digits(addr, objdump@) == Some(d@),
        r is None ==> opcode_digits(addr, objdump@) is None,
{
    let re = Regex::new(&format!(r"{:x}:\t([0-9a-fA-F]+) \t", addr)).ok()?;
    re.captures(objdump).and_then(|caps| caps.get(1)).map(|m| m.as_str().to_string())
}

/// The one instruction text that all the matches agree on; none when there
/// is no match or when two differ.
pub fn unique_match(matches: &Vec<String>) -> (r: Option<&String>)
    ensures
        r is Some <==> matches@.len() > 0 && forall|i: int| 0 <= i < matches@.len() ==> #[trigger] matches@[i]@ == matches@[0]@,
        r matches Some(s) ==> s@ == matches@[0]@,
{
    if matches.len() == 0 {
        return None;
    }
    let first = &matches[0];
    let mut i: usize = 1;
    while i < matches.len()
        invariant
            1 <= i <= matches@.len(),
            *first == matches@[0],
            forall|j: int| 0 <= j < i ==> #[trigger] matches@[j]@ == matches@[0]@,
        decreases matches@.len() - i,
    {
        if matches[i] != *first {
            return None;
        }
        i += 1;
    }
    Some(first)
}

/// The instruction text that the listing gives for `opcode`, with its
/// whitespace collapsed; none unless every listing of the opcode agrees.
pub fn instruction_from_objdump(opcode: &str, objdump: &str) -> (r: Option<String>)
    ensures
        match instruction_matches(opcode@, objdump@) {
            None => r is None,
            Some(found) => {
                let ms = found.map_values(|m: Seq<char>| whitespace_trimmed(m));
                if ms.len() > 0 && forall|i: int| 0 <= i < ms.len() ==> #[trigger] ms[i] == ms[0] {
                    r matches Some(s) && s@ == spaces_collapsed(ms[0])
                } else {
                    r is None
                }
            },
        },
{
    let raw = match instruction_captures(opcode, objdump) {
        Some(raw) => raw,
        None => {
            return None;
        },
    };
    let matches = trim_all(&raw);
    let ghost found = instruction_matches(opcode@, objdump@)->0;
    let ghost ms = found.map_values(|m: Seq<char>| whitespace_trimmed(m));
    assert(forall|i: int| 0 <= i < raw@.len() ==> #[trigger] raw@[i]@ == found[i]);
    assert(forall|i: int| 0 <= i < matches@.len() ==> #[trigger] matches@[i]@ == ms[i]);
    match unique_match(&matches) {
        Some(first) => {
            assert(forall|i: int| 0 <= i < ms.len() ==> #[trigger] ms[i] == ms[0]) by {
                assert forall|i: int| 0 <= i < ms.len() implies #[trigger] ms[i] == ms[0] by {
                    assert(matches@[i]@ == matches@[0]@);
                }
            }
            Some(collapse_whitespace(first.as_str()))
        },
        None => {
            assert(!(ms.len() > 0 && forall|i: int| 0 <= i < ms.len() ==> #[trigger] ms[i] == ms[0])) by {
                if ms.len() > 0 && forall|i: int| 0 <= i < ms.len() ==> #[trigger] ms[i] == ms[0] {
                    assert forall|i: int| 0 <= i < matches@.len() implies #[trigger] matches@[i]@ == matches@[0]@ by {
                        assert(ms[i] == ms[0]);
                    }
                }
            }
            None
        },
    }
}

/// The bitvector that hexadecimal digits denote: four bits per digit, at
/// most sixteen digits.
pub open spec fn bits_of_hex(d: Seq<char>) -> Option<Bits> {
    if d.len() <= 16 {
        match parse_hex_u64(d) {
            Some(v) => Some(Bits { bits: v, length: (4 * d.len()) as u32 }),
            None => None,
        }
    } else {
        None
    }
}

/// Reads hexadecimal digits as a bitvector of four bits per digit.
pub fn bits_from_hex(digits: &str) -> (r: Option<Bits>)
    ensures
        r == bits_of_hex(digits@),
{
    let n = vstd::string::StrSliceExecFns::unicode_len(digits);
    if n > 16 {
        return None;
    }
    assert(digits@.subrange(0, digits@.len() as int) =~= digits@);
    match parse_hex(digits, 0) {
        Some(v) => Some(Bits { bits: v, length: 4 * n as u32 }),
        None => None,
    }
}

/// The opcode that the listing gives at address `addr`.
pub fn opcode_from_objdump(addr: u64, objdump: &str) -> (r: Option<Bits>)
    ensures
        r == match opcode_digits(addr, objdump@) {
            Some(d) => bits_of_hex(d),
            None => None,
        },
{
    match opcode_capture(addr, objdump) {
        Some(d) => bits_from_hex(d.as_str()),
        None => None,
    }
}

/// The address of `label` in the listing.
pub fn label_from_objdump(label: &str, objdump: &str) -> (r: Option<u64>)
    ensures
        r == match label_digits(label@, objdump@) {
            Some(d) => parse_hex_u64(d),
            None => None,
        },
{
    match label_capture(label, objdump) {
        Some(d) => {
            assert(d@.subrange(0, d@.len() as int) =~= d@);
            parse_hex(d.as_str(), 0)
        },
        None => None,
    }
}

} // verus!
