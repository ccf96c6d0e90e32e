//! Triples, the greedy longest-match encoder and the replaying decoder.
use crate::str_match::{first_occurrence, kmp_search, lemma_first_occurrence, occurs_at, occurs_in};
use vstd::prelude::*;

verus! {

/// One encoded unit: copy `len` characters starting `offset` characters back
/// from the end of the output, then append `char_value`. A triple with
/// `offset == 0` and `len == 0` is a pure literal.
#[derive(Debug, Clone, Copy, PartialEq, Eq, Structural)]
pub struct Triple {
    pub offset: u32,
    pub len: u32,
    pub char_value: char,
}

/// The ways in which decoding can fail.
#[derive(Debug, Clone, Copy, PartialEq, Eq, Structural)]
pub enum CodecError {
    /// A triple refers to output that does not exist yet.
    DecodeCorruption,
    /// The bytes of a triple are truncated, hold a bad varint, or do not end in
    /// exactly one UTF-8 encoded character.
    MalformedWireFormat,
}

/// The literal triple for `c`.
pub open spec fn literal(c: char) -> Triple {
    Triple { offset: 0, len: 0, char_value: c }
}

impl Triple {
    /// The literal triple for `value`.
    pub fn from_value(value: char) -> (r: Triple)
        ensures
            r == literal(value),
    {
        Triple { offset: 0, len: 0, char_value: value }
    }

    /// The character of a pure literal triple; `None` for a triple that copies.
    pub fn no_traceback_return(&self) -> (r: Option<char>)
        ensures
            r == (if self.offset == 0 && self.len == 0 {
                Some(self.char_value)
            } else {
                None::<char>
            }),
    {
        if self.offset == 0 && self.len == 0 {
            Some(self.char_value)
        } else {
            None
        }
    }
}

/// Encoder and decoder between text and triples.
#[derive(Debug, Clone, Copy)]
pub struct Codec {}

// ----- the encoder, as mathematics -----

/// Grows a probe over `rem` from length `k`, one character at a time, while the
/// longer probe still occurs in the history `h`; the length it stops at.
pub open spec fn probe_len(rem: Seq<char>, h: Seq<char>, k: nat) -> nat
    decreases rem.len() - k,
{
    if k < rem.len() && occurs_in(h, rem.subrange(0, k + 1 as int)) {
        probe_len(rem, h, k + 1)
    } else {
        k
    }
}

/// Length of the longest prefix of `rem` found by growing the probe from empty.
pub open spec fn run_len(rem: Seq<char>, h: Seq<char>) -> nat {
    probe_len(rem, h, 0)
}

/// How many characters the next triple copies: the matched run, less the final
/// character when the run reaches the end of the input (that one becomes the
/// literal).
pub open spec fn copy_len(rem: Seq<char>, h: Seq<char>) -> nat {
    let m = run_len(rem, h);
    if 0 < m && m >= rem.len() {
        (m - 1) as nat
    } else {
        m
    }
}

/// The triple emitted for the remaining input `rem` against the history `h`.
pub open spec fn next_triple(rem: Seq<char>, h: Seq<char>) -> Triple {
    let m = run_len(rem, h);
    let c = copy_len(rem, h);
    if c == 0 {
        literal(rem[0])
    } else {
        Triple {
            offset: (h.len() - first_occurrence(h, rem.subrange(0, m as int))) as u32,
            len: c as u32,
            char_value: rem[c as int],
        }
    }
}

/// Where the history visible at input position `idx` starts.
pub open spec fn history_start(idx: int, window: Option<usize>) -> int {
    match window {
        Some(w) => if idx > w { idx - w } else { 0 },
        None => 0,
    }
}

/// The history visible at input position `idx`: everything before it, clipped
/// to the last `w` characters when a window `w` is given.
pub open spec fn history(s: Seq<char>, idx: int, window: Option<usize>) -> Seq<char> {
    s.subrange(history_start(idx, window), idx)
}

/// Every offset and length of an encoding of a text of `len` characters fits
/// in a `u32`: the text is that short, or the window is.
pub open spec fn triples_fit(len: nat, window: Option<usize>) -> bool {
    len <= u32::MAX || match window {
        Some(w) => w <= u32::MAX,
        None => false,
    }
}

/// The triples that encode `s` from position `idx` on.
pub open spec fn encode_from(s: Seq<char>, idx: int, window: Option<usize>) -> Seq<Triple>
    decreases s.len() - idx,
    via encode_from_decreases
{
    if idx < 0 || idx >= s.len() {
        seq![]
    } else {
        let rem = s.subrange(idx, s.len() as int);
        let h = history(s, idx, window);
        seq![next_triple(rem, h)] + encode_from(s, idx + copy_len(rem, h) + 1, window)
    }
}

/// The triples that encode `s` with the given window.
pub open spec fn encode_spec(s: Seq<char>, window: Option<usize>) -> Seq<Triple> {
    encode_from(s, 0, window)
}

// ----- the decoder, as mathematics -----

/// The characters that a copy of `len` characters starting `offset` back from
/// the end of `out` appends, read one at a time so that a copy may run into
/// the characters it has itself just written.
pub open spec fn copied(out: Seq<char>, offset: int, len: nat) -> Seq<char> {
    Seq::new(len, |k: int| out[out.len() - offset + k % offset])
}

/// The output after replaying triple `t` on `out`, or `None` when `t` refers
/// to characters that do not exist.
pub open spec fn expand(out: Seq<char>, t: Triple) -> Option<Seq<char>> {
    if t.offset == 0 && t.len == 0 {
        Some(out.push(t.char_value))
    } else if t.offset == 0 || t.offset > out.len() {
        None
    } else {
        Some((out + copied(out, t.offset as int, t.len as nat)).push(t.char_value))
    }
}

/// The output after replaying `ts` in order on `out`, or `None` at the first
/// corrupt triple.
pub open spec fn decode_from(out: Seq<char>, ts: Seq<Triple>) -> Option<Seq<char>>
    decreases ts.len(),
{
    if ts.len() == 0 {
        Some(out)
    } else {
        match expand(out, ts[0]) {
            Some(next) => decode_from(next, ts.drop_first()),
            None => None,
        }
    }
}

/// The text that `ts` decodes to, or `None` when it is corrupt.
pub open spec fn decode_spec(ts: Seq<Triple>) -> Option<Seq<char>> {
    decode_from(seq![], ts)
}

// ----- proofs -----

proof fn lemma_decode_from_split(out: Seq<char>, ts: Seq<Triple>, i: int)
    requires
        0 <= i <= ts.len(),
    ensures
        decode_from(out, ts) == match decode_from(out, ts.take(i)) {
            Some(mid) => decode_from(mid, ts.skip(i)),
            None => None,
        },
    decreases i,
{
    if i == 0 {
        assert(ts.take(0) =~= seq![]);
        assert(ts.skip(0) =~= ts);
    } else {
        assert(ts.take(i)[0] == ts[0]);
        match expand(out, ts[0]) {
            Some(next) => {
                lemma_decode_from_split(next, ts.drop_first(), i - 1);
                assert(ts.take(i).drop_first() =~= ts.drop_first().take(i - 1));
                assert(ts.drop_first().skip(i - 1) =~= ts.skip(i));
            },
            None => {},
        }
    }
}

/// Decoding fails when a triple copies from further back than the output that
/// the triples before it produced.
pub proof fn lemma_offset_beyond_output_rejected(ts: Seq<Triple>, i: int)
    requires
        0 <= i < ts.len(),
        decode_spec(ts.take(i)) is Some,
        ts[i].offset > decode_spec(ts.take(i))->0.len(),
    ensures
        decode_spec(ts) is None,
{
    lemma_decode_from_split(seq![], ts, i);
    assert(ts.skip(i)[0] == ts[i]);
}

proof fn lemma_probe_len_bound(rem: Seq<char>, h: Seq<char>, k: nat)
    requires
        k <= rem.len(),
    ensures
        k <= probe_len(rem, h, k) <= rem.len(),
    decreases rem.len() - k,
{
    if k < rem.len() && occurs_in(h, rem.subrange(0, k + 1 as int)) {
        lemma_probe_len_bound(rem, h, k + 1);
    }
}

proof fn lemma_probe_len_occurs(rem: Seq<char>, h: Seq<char>, k: nat)
    requires
        k <= rem.len(),
        k == 0 || occurs_in(h, rem.subrange(0, k as int)),
    ensures
        probe_len(rem, h, k) == 0 || occurs_in(h, rem.subrange(0, probe_len(rem, h, k) as int)),
    decreases rem.len() - k,
{
    if k < rem.len() && occurs_in(h, rem.subrange(0, k + 1 as int)) {
        lemma_probe_len_occurs(rem, h, k + 1);
    }
}

/// Facts about the triple emitted for `rem` against `h`: it advances by
/// `copy_len + 1 <= rem.len()` characters, and a copying triple points at an
/// occurrence of the copied run that lies wholly inside `h`.
proof fn lemma_next_triple(rem: Seq<char>, h: Seq<char>)
    requires
        rem.len() > 0,
        h.len() <= u32::MAX,
    ensures
        copy_len(rem, h) + 1 <= rem.len(),
        next_triple(rem, h).char_value == rem[copy_len(rem, h) as int],
        copy_len(rem, h) == 0 ==> next_triple(rem, h) == literal(rem[0]),
        copy_len(rem, h) > 0 ==> {
            let t = next_triple(rem, h);
            let off = t.offset as int;
            &&& t.len == copy_len(rem, h)
            &&& copy_len(rem, h) <= off <= h.len()
            &&& forall|k: int| 0 <= k < t.len ==> #[trigger] h[h.len() - off + k] == rem[k]
        },
{
    let m = run_len(rem, h);
    lemma_probe_len_bound(rem, h, 0);
    lemma_probe_len_occurs(rem, h, 0);
    let c = copy_len(rem, h);
    if c > 0 {
        let p = rem.subrange(0, m as int);
        lemma_first_occurrence(h, p);
        let f = first_occurrence(h, p);
        assert(occurs_at(h, p, f));
        assert forall|k: int| 0 <= k < c implies #[trigger] h[h.len() - (h.len() - f) + k] == rem[k] by {
            assert(h[f + k] == p[k]);
        }
    }
}

proof fn lemma_decode_encode_from(s: Seq<char>, idx: int, window: Option<usize>)
    requires
        0 <= idx <= s.len(),
        triples_fit(s.len(), window),
    ensures
        decode_from(s.subrange(0, idx), encode_from(s, idx, window)) == Some(s),
    decreases s.len() - idx,
{
    if idx == s.len() {
        assert(s.subrange(0, idx) =~= s);
    } else {
        let rem = s.subrange(idx, s.len() as int);
        let h = history(s, idx, window);
        let out = s.subrange(0, idx);
        let t = next_triple(rem, h);
        let c = copy_len(rem, h);
        let ts = encode_from(s, idx, window);
        lemma_next_triple(rem, h);
        assert(ts[0] == t);
        assert(ts.drop_first() =~= encode_from(s, idx + c + 1, window));
        let next = s.subrange(0, idx + c + 1);
        if c == 0 {
            assert(out.push(t.char_value) =~= next);
        } else {
            let off = t.offset as int;
            assert forall|k: int| 0 <= k < c implies #[trigger] copied(out, off, c)[k] == s[idx + k] by {
                vstd::arithmetic::div_mod::lemma_small_mod(k as nat, off as nat);
                assert(h[h.len() - off + k] == rem[k]);
            }
            assert((out + copied(out, off, c)).push(t.char_value) =~= next);
        }
        assert(expand(out, t) == Some(next));
        lemma_decode_encode_from(s, idx + c + 1, window);
    }
}

/// Decoding the encoding of any text, with any window or none, gives the text
/// back, wherever the triples can hold the offsets and lengths.
pub proof fn lemma_round_trip(s: Seq<char>, window: Option<usize>)
    requires
        triples_fit(s.len(), window),
    ensures
        decode_spec(encode_spec(s, window)) == Some(s),
{
    lemma_decode_encode_from(s, 0, window);
    assert(s.subrange(0, 0) =~= seq![]);
}

proof fn lemma_window_bound_from(s: Seq<char>, idx: int, w: usize)
    requires
        0 <= idx <= s.len(),
    ensures
        forall|i: int|
            0 <= i < encode_from(s, idx, Some(w)).len() ==> #[trigger] encode_from(s, idx, Some(w))[i].offset <= w,
    decreases s.len() - idx,
{
    if idx < s.len() {
        let rem = s.subrange(idx, s.len() as int);
        let h = history(s, idx, Some(w));
        let c = copy_len(rem, h);
        lemma_probe_len_bound(rem, h, 0);
        if w <= u32::MAX {
            lemma_next_triple(rem, h);
        }
        lemma_window_bound_from(s, idx + c + 1, w);
        let ts = encode_from(s, idx, Some(w));
        assert forall|i: int| 0 <= i < ts.len() implies #[trigger] ts[i].offset <= w by {
            if i > 0 {
                assert(ts[i] == encode_from(s, idx + c + 1, Some(w))[i - 1]);
            }
        }
    }
}

/// With a window of `w` characters, no triple of the encoding reaches back
/// further than `w`.
pub proof fn lemma_window_bound(s: Seq<char>, w: usize)
    ensures
        forall|i: int|
            0 <= i < encode_spec(s, Some(w)).len() ==> #[trigger] encode_spec(s, Some(w))[i].offset <= w,
{
    lemma_window_bound_from(s, 0, w);
}

/// A character that does not occur in the history visible at its position is
/// emitted as a literal triple.
pub proof fn lemma_unseen_char_is_literal(s: Seq<char>, idx: int, window: Option<usize>)
    requires
        0 <= idx < s.len(),
        !history(s, idx, window).contains(s[idx]),
    ensures
        encode_from(s, idx, window)[0] == literal(s[idx]),
{
    let rem = s.subrange(idx, s.len() as int);
    let h = history(s, idx, window);
    if occurs_in(h, rem.subrange(0, 1)) {
        let i = choose|i: int| occurs_at(h, rem.subrange(0, 1), i);
        assert(h[i + 0] == rem.subrange(0, 1)[0]);
    }
    lemma_probe_len_bound(rem, h, 0);
}

#[via_fn]
proof fn encode_from_decreases(s: Seq<char>, idx: int, window: Option<usize>) {
    if 0 <= idx < s.len() {
        lemma_probe_len_bound(s.subrange(idx, s.len() as int), history(s, idx, window), 0);
    }
}

impl Codec {
    /// Finds the next triple for `remain` against the history `search`, and how
    /// many characters it copies.
    fn encode_triple(remain: &[char], search: &[char]) -> (r: (usize, Triple))
        requires
            remain@.len() > 0,
            search@.len() <= u32::MAX,
        ensures
            r.0 == copy_len(remain@, search@),
            r.1 == next_triple(remain@, search@),
    {
        let ghost rem = remain@;
        let ghost h = search@;
        let mut probe: Vec<char> = Vec::new();
        let mut k: usize = 0;
        let mut match_index: usize = 0;
        while k < remain.len()
            invariant_except_break
                probe@ == rem.subrange(0, k as int),
            invariant
                k <= rem.len(),
                remain@ == rem,
                search@ == h,
                probe_len(rem, h, k as nat) == run_len(rem, h),
                k > 0 ==> match_index == first_occurrence(h, rem.subrange(0, k as int)),
            ensures
                k <= rem.len(),
                k == run_len(rem, h),
                k > 0 ==> match_index == first_occurrence(h, rem.subrange(0, k as int)),
            decreases rem.len() - k,
        {
            probe.push(remain[k]);
            assert(probe@ =~= rem.subrange(0, k + 1));
            match kmp_search(search, probe.as_slice()) {
                None => {
                    assert(!occurs_in(h, rem.subrange(0, k + 1)));
                    break;
                },
                Some(i) => {
                    assert(occurs_in(h, rem.subrange(0, k + 1)));
                    proof {
                        lemma_first_occurrence(h, rem.subrange(0, k + 1));
                    }
                    match_index = i;
                    k += 1;
                },
            }
        }
        let copy = if k == remain.len() { k - 1 } else { k };
        let triple = if copy == 0 {
            Triple { offset: 0, len: 0, char_value: remain[0] }
        } else {
            proof {
                lemma_first_occurrence(h, rem.subrange(0, k as int));
                assert(occurs_at(h, rem.subrange(0, k as int), match_index as int));
            }
            Triple { offset: (search.len() - match_index) as u32, len: copy as u32, char_value: remain[copy] }
        };
        (copy, triple)
    }

    /// Encodes `input` as triples, each matching the longest run of the
    /// remaining input that occurs in the history (the whole preceding text, or
    /// its last `search_window_size` characters).
    pub fn encode(input: String, search_window_size: Option<usize>) -> (r: Vec<Triple>)
        requires
            triples_fit(input@.len(), search_window_size),
        ensures
            r@ == encode_spec(input@, search_window_size),
            decode_spec(r@) == Some(input@),
            input@.len() > 0 ==> r@.len() > 0 && r@[0] == literal(input@[0]),
            forall|i: int|
                0 <= i < r@.len() && search_window_size is Some ==> #[trigger] r@[i].offset
                    <= search_window_size->0,
    {
        proof {
            lemma_round_trip(input@, search_window_size);
            if search_window_size is Some {
                lemma_window_bound(input@, search_window_size->0);
            }
            if input@.len() > 0 {
                lemma_unseen_char_is_literal(input@, 0, search_window_size);
            }
        }
        let chars = chars_of(input.as_str());
        let n = chars.len();
        let ghost s = chars@;
        let mut triples: Vec<Triple> = Vec::new();
        let mut index: usize = 0;
        while index < n
            invariant
                s == chars@,
                n == s.len(),
                triples_fit(n as nat, search_window_size),
                index <= n,
                triples@ + encode_from(s, index as int, search_window_size) == encode_spec(s, search_window_size),
            decreases n - index,
        {
            let mut start: usize = 0;
            match search_window_size {
                Some(w) => {
                    if index > w {
                        start = index - w;
                    }
                },
                None => {},
            }
            let remain = vstd::slice::slice_subrange(chars.as_slice(), index, n);
            let search = vstd::slice::slice_subrange(chars.as_slice(), start, index);
            let (copied, triple) = Codec::encode_triple(remain, search);
            proof {
                lemma_probe_len_bound(remain@, search@, 0);
                assert(encode_from(s, index as int, search_window_size) =~= seq![triple] + encode_from(
                    s,
                    index + copied + 1,
                    search_window_size,
                ));
                assert(triples@.push(triple) + encode_from(s, index + copied + 1, search_window_size)
                    =~= triples@ + encode_from(s, index as int, search_window_size));
            }
            triples.push(triple);
            index = index + copied + 1;
        }
        proof {
            assert(triples@ + encode_from(s, index as int, search_window_size) =~= triples@);
        }
        triples
    }

    /// Decodes triples back into text. Fails with `DecodeCorruption` at the
    /// first triple that copies from before the start of the output, or copies
    /// with a zero offset.
    pub fn decode(encode_triple_vec: Vec<Triple>) -> (r: Result<String, CodecError>)
        ensures
            match r {
                Ok(text) => decode_spec(encode_triple_vec@) == Some(text@),
                Err(e) => decode_spec(encode_triple_vec@) is None && e == CodecError::DecodeCorruption,
            },
    {
        let ghost ts = encode_triple_vec@;
        let mut out: Vec<char> = Vec::new();
        let mut i: usize = 0;
        assert(ts.skip(0) =~= ts);
        while i < encode_triple_vec.len()
            invariant
                ts == encode_triple_vec@,
                i <= ts.len(),
                decode_from(out@, ts.skip(i as int)) == decode_spec(ts),
            decreases ts.len() - i,
        {
            let triple = encode_triple_vec[i];
            proof {
                assert(ts.skip(i as int)[0] == triple);
                assert(ts.skip(i as int).drop_first() =~= ts.skip(i + 1));
            }
            if triple.offset == 0 && triple.len == 0 {
                out.push(triple.char_value);
            } else if triple.offset == 0 || triple.offset as usize > out.len() {
                return Err(CodecError::DecodeCorruption);
            } else {
                let ghost base = out@;
                let offset = triple.offset as usize;
                let start = out.len() - offset;
                let mut k: usize = 0;
                while k < triple.len as usize
                    invariant
                        base.len() >= offset > 0,
                        start == base.len() - offset,
                        k <= triple.len,
                        out@ =~= base + copied(base, offset as int, k as nat),
                    decreases triple.len - k,
                {
                    let ghost off = offset as int;
                    let cur = out.len();
                    assert(cur == base.len() + k);
                    let c = out[start + k];
                    proof {
                        if k < offset {
                            vstd::arithmetic::div_mod::lemma_small_mod(k as nat, off as nat);
                        } else {
                            vstd::arithmetic::div_mod::lemma_mod_add_multiples_vanish(k - off, off);
                            assert(c == copied(base, off, k as nat)[k - off]);
                        }
                        assert(c == base[start + (k as int) % off]);
                        assert(out@.push(c) =~= base + copied(base, off, (k + 1) as nat));
                    }
                    out.push(c);
                    k += 1;
                }
                out.push(triple.char_value);
            }
            i += 1;
        }
        proof {
            assert(ts.skip(i as int) =~= seq![]);
        }
        Ok(string_from_chars(&out))
    }
}

/// Encodes `paragraph` with a window of `window_size` characters and decodes
/// the triples again, which gives `paragraph` back.
pub fn encode_decode_long_string(paragraph: String, window_size: usize) -> (r: String)
    requires
        paragraph@.len() <= u32::MAX || window_size <= u32::MAX,
    ensures
        r@ == paragraph@,
{
    let triples = Codec::encode(paragraph, Some(window_size));
    match Codec::decode(triples) {
        Ok(text) => text,
        // never taken: the encoding of any text decodes
        Err(_) => String::new(),
    }
}

/// The characters of `s`, in order.
fn chars_of(s: &str) -> (r: Vec<char>)
    ensures
        r@ == s@,
{
    broadcast use vstd::string::group_string_axioms;

    let mut r: Vec<char> = Vec::new();
    for c in it: s.chars()
        invariant
            it.seq() == s@,
            r@ == s@.take(it.index() as int),
    {
        proof {
            assert(s@.take(it.index() as int).push(c) =~= s@.take(it.index() + 1));
        }
        r.push(c);
    }
    proof {
        assert(s@.take(s@.len() as int) =~= s@);
    }
    r
}

/// Relies on String's FromIterator<&char>: the text holds the characters, in order.
#[verifier::external_body]
pub(crate) fn string_from_chars(v: &Vec<char>) -> (r: String)
    ensures
        r@ == v@,
{
    v.iter().collect()
}

} // verus!
