use vstd::prelude::*;
use vstd::string::StringSliceAdditionalSpecFns;
use crate::err::TokenRingError;
use crate::serialize::{Serializable, enc_string, string_fits, write_string, read_string};

verus! {

/// The longest prefix length of at most 8 bytes that ends on a character boundary.
pub open spec fn label_cut(b: Seq<u8>) -> int {
    cut_from(b, if b.len() < 8 { b.len() as int } else { 8 })
}

pub open spec fn cut_from(b: Seq<u8>, k: int) -> int
    decreases k,
{
    if k <= 0 || vstd::utf8::is_char_boundary(b, k) {
        if k <= 0 { 0 } else { k }
    } else {
        cut_from(b, k - 1)
    }
}

/// ASCII letters `A`..`Z` map to `a`..`z`; every other character is kept.
pub open spec fn ascii_lower(c: char) -> char {
    if 'A' <= c && c <= 'Z' {
        ((c as u32) + 32) as char
    } else {
        c
    }
}

/// Relies on `str::to_ascii_lowercase`: maps ASCII capitals to small letters, keeps the rest.
#[verifier::external_body]
fn to_ascii_lower(s: &str) -> (r: String)
    ensures
        r@ == s@.map_values(|c: char| ascii_lower(c)),
{
    s.to_ascii_lowercase()
}

/// A station's label: at most 8 bytes of UTF-8, with ASCII letters in lower case,
/// so that two labels that differ only in the case of ASCII letters are the same.
#[derive(Debug, Eq, Hash)]
pub struct WorkStationId {
    name: String,
}

impl View for WorkStationId {
    type V = Seq<char>;

    closed spec fn view(&self) -> Seq<char> {
        self.name@
    }
}

impl PartialEq for WorkStationId {
    fn eq(&self, o: &WorkStationId) -> (r: bool)
        ensures
            r == (self@ == o@),
    {
        self.name == o.name
    }
}

impl vstd::std_specs::cmp::PartialEqSpecImpl for WorkStationId {
    open spec fn obeys_eq_spec() -> bool {
        true
    }

    open spec fn eq_spec(&self, o: &WorkStationId) -> bool {
        self@ == o@
    }
}

impl Clone for WorkStationId {
    fn clone(&self) -> (r: WorkStationId)
        ensures
            r@ == self@,
    {
        WorkStationId { name: self.name.clone() }
    }
}

impl WorkStationId {
    /// Lower-cases the ASCII letters of `name` and keeps its longest prefix of at most
    /// 8 bytes that ends on a character boundary.
    pub fn new(name: String) -> (r: WorkStationId)
        ensures
            ({
                let low = vstd::utf8::encode_utf8(name@.map_values(|c: char| ascii_lower(c)));
                vstd::utf8::encode_utf8(r@) == low.subrange(0, label_cut(low))
            }),
            vstd::utf8::encode_utf8(r@).len() <= 8,
    {
        let low = to_ascii_lower(name.as_str());
        let ls = low.as_str();
        let ghost b = ls.spec_bytes();
        proof {
            vstd::utf8::encode_utf8_valid_utf8(ls@);
        }
        let n: usize = ls.as_bytes().len();
        let mut k: usize = if n < 8 { n } else { 8 };
        while k > 0 && !ls.is_char_boundary(k)
            invariant
                vstd::utf8::valid_utf8(b),
                b == ls.spec_bytes(),
                k <= b.len(),
                k <= 8,
                cut_from(b, k as int) == label_cut(b),
            decreases k,
        {
            k = k - 1;
        }
        proof {
            assert(vstd::utf8::is_char_boundary(b, 0)) by {
                reveal_with_fuel(vstd::utf8::is_char_boundary, 2);
            }
        }
        let (head, _) = ls.split_at(k);
        let r = WorkStationId { name: head.to_owned() };
        proof {
            assert(r@ == head@);
        }
        r
    }

    /// The label as text.
    pub fn as_str(&self) -> (r: &str)
        ensures
            r@ == self@,
    {
        self.name.as_str()
    }
}

impl Serializable for WorkStationId {
    open spec fn wf_view(v: Seq<char>) -> bool {
        string_fits(v)
    }

    open spec fn encoding(v: Seq<char>) -> Seq<u8> {
        enc_string(v)
    }

    fn write(&self, buf: &mut Vec<u8>) -> (r: Result<(), TokenRingError>) {
        write_string(buf, &self.name)
    }

    fn read(buf: &[u8], pos: usize) -> (r: Result<(WorkStationId, usize), TokenRingError>) {
        let (name, p) = read_string(buf, pos)?;
        Ok((WorkStationId { name }, p))
    }

    fn size(&self) -> (r: usize) {
        2 + self.name.as_str().as_bytes().len()
    }
}

} // verus!
