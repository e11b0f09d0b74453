//! The styled clipboard: a fragment kept with the plain text it was copied
//! as, handed back only while the system clipboard still holds that text.
use vstd::prelude::*;
use vstd::utf8::*;
use crate::model::{Block, BlockView, doc_blocks};

verus! {

/// `bs` with every carriage return that directly precedes a line feed
/// dropped: CRLF line endings become LF.
pub open spec fn crlf_to_lf(bs: Seq<u8>) -> Seq<u8>
    decreases bs.len(),
{
    if bs.len() == 0 {
        bs
    } else if bs.len() >= 2 && bs[0] == 13 && bs[1] == 10 {
        crlf_to_lf(bs.skip(1))
    } else {
        seq![bs[0]] + crlf_to_lf(bs.skip(1))
    }
}

/// Whether two texts are the same once their line endings are normalised.
pub open spec fn same_lines(a: Seq<char>, b: Seq<char>) -> bool {
    crlf_to_lf(encode_utf8(a)) == crlf_to_lf(encode_utf8(b))
}

/// The UTF-8 bytes of `s` with CRLF line endings turned into LF.
fn lf_bytes(s: &str) -> (out: Vec<u8>)
    ensures
        out@ == crlf_to_lf(encode_utf8(s@)),
{
    let bytes = s.as_bytes();
    let ghost bs = bytes@;
    let n = bytes.len();
    let mut out: Vec<u8> = Vec::new();
    let mut i: usize = 0;
    assert(bs.skip(0) =~= bs);
    assert(out@ + crlf_to_lf(bs) =~= crlf_to_lf(bs));
    while i < n
        invariant
            bs == bytes@,
            n == bs.len(),
            i <= n,
            crlf_to_lf(bs) == out@ + crlf_to_lf(bs.skip(i as int)),
        decreases n - i,
    {
        let ghost rest = bs.skip(i as int);
        proof {
            assert(rest.skip(1) =~= bs.skip(i + 1));
            assert(rest[0] == bs[i as int]);
        }
        if bytes[i] == 13 && i + 1 < n && bytes[i + 1] == 10 {
            proof {
                assert(rest[1] == bs[i + 1]);
            }
        } else {
            out.push(bytes[i]);
        }
        i += 1;
    }
    assert(bs.skip(n as int) =~= Seq::<u8>::empty());
    assert(out@ + Seq::<u8>::empty() =~= out@);
    out
}

fn same_bytes(a: &Vec<u8>, b: &Vec<u8>) -> (r: bool)
    ensures
        r == (a@ == b@),
{
    if a.len() != b.len() {
        return false;
    }
    let mut i: usize = 0;
    while i < a.len()
        invariant
            a@.len() == b@.len(),
            i <= a@.len(),
            forall|j: int| 0 <= j < i ==> a@[j] == b@[j],
        decreases a.len() - i,
    {
        if a[i] != b[i] {
            return false;
        }
        i += 1;
    }
    assert(a@ =~= b@);
    true
}

/// A styled fragment kept beside the system clipboard, under the plain text
/// that was copied with it (its fingerprint).
pub struct RichClipboard {
    payload: Option<(String, Vec<Block>)>,
}

impl View for RichClipboard {
    type V = Option<(Seq<char>, Seq<BlockView>)>;

    closed spec fn view(&self) -> Option<(Seq<char>, Seq<BlockView>)> {
        match self.payload {
            Some(p) => Some((p.0@, doc_blocks(p.1@))),
            None => None,
        }
    }
}

impl RichClipboard {
    /// An empty slot.
    pub fn new() -> (c: Self)
        ensures
            c@ is None,
    {
        RichClipboard { payload: None }
    }
}

fn copy_blocks(src: &Vec<Block>) -> (out: Vec<Block>)
    ensures
        doc_blocks(out@) == doc_blocks(src@),
{
    let mut out: Vec<Block> = Vec::new();
    let mut i: usize = 0;
    while i < src.len()
        invariant
            i <= src.len(),
            out@.len() == i,
            doc_blocks(out@) == doc_blocks(src@).take(i as int),
        decreases src.len() - i,
    {
        let b = src[i].duplicate();
        let ghost before = out@;
        out.push(b);
        proof {
            assert(doc_blocks(out@) =~= doc_blocks(before).push(src@[i as int]@));
            assert(doc_blocks(src@).take(i + 1) =~= doc_blocks(src@).take(i as int).push(
                src@[i as int]@,
            ));
        }
        i += 1;
    }
    assert(doc_blocks(src@).take(i as int) =~= doc_blocks(src@));
    out
}

/// Store `fragment` under `fingerprint`, replacing any earlier payload.
pub fn set(slot: &mut RichClipboard, fingerprint: String, fragment: Vec<Block>)
    ensures
        final(slot)@ == Some((fingerprint@, doc_blocks(fragment@))),
{
    slot.payload = Some((fingerprint, fragment));
}

/// A copy of the stored fragment when its fingerprint is `plain` (line
/// endings normalised), otherwise nothing.
pub fn matching(slot: &RichClipboard, plain: &str) -> (r: Option<Vec<Block>>)
    ensures
        match slot@ {
            Some(p) => if same_lines(p.0, plain@) {
                r is Some && doc_blocks(r->0@) == p.1
            } else {
                r is None
            },
            None => r is None,
        },
{
    match &slot.payload {
        Some(p) => {
            let want = lf_bytes(p.0.as_str());
            let got = lf_bytes(plain);
            if same_bytes(&want, &got) {
                Some(copy_blocks(&p.1))
            } else {
                None
            }
        },
        None => None,
    }
}

/// Drop any stored payload.
pub fn clear(slot: &mut RichClipboard)
    ensures
        final(slot)@ is None,
{
    slot.payload = None;
}

} // verus!
