use vstd::prelude::*;

use crate::request::RequestView;

verus! {

/// Keys and values are made of the lowercase ASCII letters `a` to `z`.
pub open spec fn is_letter(c: char) -> bool {
    'a' <= c && c <= 'z'
}

/// A possibly empty sequence of letters: the shape of a key and of a value.
pub open spec fn is_word(s: Seq<char>) -> bool {
    forall|i: int| 0 <= i < s.len() ==> is_letter(#[trigger] s[i])
}

/// `STORE$`, the start of every store request.
pub open spec fn store_tag() -> Seq<char> {
    seq!['S', 'T', 'O', 'R', 'E', '$']
}

/// `LOAD$`, the start of every load request.
pub open spec fn load_tag() -> Seq<char> {
    seq!['L', 'O', 'A', 'D', '$']
}

/// `STORE$` key `$` value `$`
pub open spec fn encode_store(key: Seq<char>, value: Seq<char>) -> Seq<char> {
    store_tag() + key + seq!['$'] + value + seq!['$']
}

/// `LOAD$` key `$`
pub open spec fn encode_load(key: Seq<char>) -> Seq<char> {
    load_tag() + key + seq!['$']
}

impl RequestView {
    /// Key and value are words.
    pub open spec fn well_formed(self) -> bool {
        match self {
            RequestView::Store { key, value } => is_word(key) && is_word(value),
            RequestView::Load { key } => is_word(key),
        }
    }

    /// The request's bytes on the wire.
    pub open spec fn encode(self) -> Seq<char> {
        match self {
            RequestView::Store { key, value } => encode_store(key, value),
            RequestView::Load { key } => encode_load(key),
        }
    }
}

/// `b` begins with a complete store request.
pub open spec fn starts_with_store(b: Seq<char>) -> bool {
    exists|k: Seq<char>, v: Seq<char>|
        is_word(k) && is_word(v) && #[trigger] encode_store(k, v).is_prefix_of(b)
}

/// `b` begins with a complete load request.
pub open spec fn starts_with_load(b: Seq<char>) -> bool {
    exists|k: Seq<char>| is_word(k) && #[trigger] encode_load(k).is_prefix_of(b)
}

/// `b` is a strict prefix of some store request.
pub open spec fn could_become_store(b: Seq<char>) -> bool {
    exists|k: Seq<char>, v: Seq<char>|
        is_word(k) && is_word(v) && b.len() < encode_store(k, v).len()
            && b.is_prefix_of(#[trigger] encode_store(k, v))
}

/// `b` is a strict prefix of some load request.
pub open spec fn could_become_load(b: Seq<char>) -> bool {
    exists|k: Seq<char>|
        is_word(k) && b.len() < encode_load(k).len() && b.is_prefix_of(#[trigger] encode_load(k))
}

/// `b` begins with a complete request.
pub open spec fn starts_with_request(b: Seq<char>) -> bool {
    starts_with_store(b) || starts_with_load(b)
}

/// `b` is a strict prefix of some request: more characters could complete it.
pub open spec fn could_become_request(b: Seq<char>) -> bool {
    could_become_store(b) || could_become_load(b)
}

/// What the parser makes of an accumulated buffer.
pub enum Verdict {
    /// The buffer begins with `request`; `rest` follows it.
    Parsed { request: RequestView, rest: Seq<char> },
    /// No request yet, but more characters could make one.
    Incomplete,
    /// No continuation of the buffer begins with a request.
    Malformed,
}

/// The verdict on a buffer `b`.
pub open spec fn parse(b: Seq<char>) -> Verdict {
    if starts_with_store(b) {
        let (k, v) = choose|k: Seq<char>, v: Seq<char>|
            is_word(k) && is_word(v) && #[trigger] encode_store(k, v).is_prefix_of(b);
        Verdict::Parsed {
            request: RequestView::Store { key: k, value: v },
            rest: b.skip(encode_store(k, v).len() as int),
        }
    } else if starts_with_load(b) {
        let k = choose|k: Seq<char>| is_word(k) && #[trigger] encode_load(k).is_prefix_of(b);
        Verdict::Parsed {
            request: RequestView::Load { key: k },
            rest: b.skip(encode_load(k).len() as int),
        }
    } else if could_become_request(b) {
        Verdict::Incomplete
    } else {
        Verdict::Malformed
    }
}

/// Where the characters of a store request stand.
pub proof fn lemma_store_layout(k: Seq<char>, v: Seq<char>)
    requires
        is_word(k),
        is_word(v),
    ensures
        ({
            let e = encode_store(k, v);
            &&& e.len() == 8 + k.len() + v.len()
            &&& forall|i: int| 0 <= i < 6 ==> e[i] == #[trigger] store_tag()[i]
            &&& forall|i: int|
                6 <= i < 6 + k.len() ==> is_letter(#[trigger] e[i]) && e[i] == k[i - 6]
            &&& e[6 + k.len() as int] == '$'
            &&& forall|i: int|
                7 + k.len() <= i < 7 + k.len() + v.len() ==> is_letter(#[trigger] e[i]) && e[i]
                    == v[i - 7 - k.len()]
            &&& e[7 + k.len() + v.len() as int] == '$'
        }),
{
}

/// Where the characters of a load request stand.
pub proof fn lemma_load_layout(k: Seq<char>)
    requires
        is_word(k),
    ensures
        ({
            let e = encode_load(k);
            &&& e.len() == 6 + k.len()
            &&& forall|i: int| 0 <= i < 5 ==> e[i] == #[trigger] load_tag()[i]
            &&& forall|i: int|
                5 <= i < 5 + k.len() ==> is_letter(#[trigger] e[i]) && e[i] == k[i - 5]
            &&& e[5 + k.len() as int] == '$'
        }),
{
}

/// A prefix agrees with the whole sequence on its own positions.
pub proof fn lemma_prefix_index(p: Seq<char>, s: Seq<char>)
    requires
        p.is_prefix_of(s),
    ensures
        forall|i: int| #![trigger p[i]] #![trigger s[i]] 0 <= i < p.len() ==> p[i] == s[i],
{
    assert forall|i: int| 0 <= i < p.len() implies p[i] == s[i] by {
        assert(s.subrange(0, p.len() as int)[i] == s[i]);
    }
}

/// No request's encoding is a prefix of another request's encoding.
pub proof fn lemma_encodings_prefix_free(r1: RequestView, r2: RequestView)
    requires
        r1.well_formed(),
        r2.well_formed(),
        r1.encode().is_prefix_of(r2.encode()),
    ensures
        r1 == r2,
{
    lemma_prefix_index(r1.encode(), r2.encode());
    match (r1, r2) {
        (RequestView::Store { key: k1, value: v1 }, RequestView::Store { key: k2, value: v2 }) => {
            lemma_store_layout(k1, v1);
            lemma_store_layout(k2, v2);
            if k1.len() < k2.len() {
                assert(r1.encode()[6 + k1.len() as int] == r2.encode()[6 + k1.len() as int]);
            } else if k1.len() > k2.len() {
                assert(r1.encode()[6 + k2.len() as int] == r2.encode()[6 + k2.len() as int]);
            }
            assert forall|i: int| 0 <= i < k1.len() implies k1[i] == k2[i] by {
                assert(r1.encode()[6 + i] == r2.encode()[6 + i]);
            }
            assert(k1 =~= k2);
            let base = 7 + k1.len() as int;
            if v1.len() < v2.len() {
                assert(r1.encode()[base + v1.len()] == r2.encode()[base + v1.len()]);
            } else if v1.len() > v2.len() {
                assert(r1.encode()[base + v2.len()] == r2.encode()[base + v2.len()]);
            }
            assert forall|i: int| 0 <= i < v1.len() implies v1[i] == v2[i] by {
                assert(r1.encode()[base + i] == r2.encode()[base + i]);
            }
            assert(v1 =~= v2);
        },
        (RequestView::Load { key: k1 }, RequestView::Load { key: k2 }) => {
            lemma_load_layout(k1);
            lemma_load_layout(k2);
            if k1.len() < k2.len() {
                assert(r1.encode()[5 + k1.len() as int] == r2.encode()[5 + k1.len() as int]);
            } else if k1.len() > k2.len() {
                assert(r1.encode()[5 + k2.len() as int] == r2.encode()[5 + k2.len() as int]);
            }
            assert forall|i: int| 0 <= i < k1.len() implies k1[i] == k2[i] by {
                assert(r1.encode()[5 + i] == r2.encode()[5 + i]);
            }
            assert(k1 =~= k2);
        },
        (RequestView::Store { key: k1, value: v1 }, RequestView::Load { key: k2 }) => {
            lemma_store_layout(k1, v1);
            lemma_load_layout(k2);
            assert(r1.encode()[0] == store_tag()[0]);
            assert(r2.encode()[0] == load_tag()[0]);
        },
        (RequestView::Load { key: k1 }, RequestView::Store { key: k2, value: v2 }) => {
            lemma_load_layout(k1);
            lemma_store_layout(k2, v2);
            assert(r1.encode()[0] == load_tag()[0]);
            assert(r2.encode()[0] == store_tag()[0]);
        },
    }
}

/// Of two prefixes of one sequence, the shorter is a prefix of the longer.
pub proof fn lemma_prefixes_nest(p: Seq<char>, q: Seq<char>, s: Seq<char>)
    requires
        p.is_prefix_of(s),
        q.is_prefix_of(s),
        p.len() <= q.len(),
    ensures
        p.is_prefix_of(q),
{
    lemma_prefix_index(p, s);
    lemma_prefix_index(q, s);
    assert(p =~= q.subrange(0, p.len() as int));
}

/// A sequence begins with at most one request.
pub proof fn lemma_one_request_at_start(r1: RequestView, r2: RequestView, b: Seq<char>)
    requires
        r1.well_formed(),
        r2.well_formed(),
        r1.encode().is_prefix_of(b),
        r2.encode().is_prefix_of(b),
    ensures
        r1 == r2,
{
    if r1.encode().len() <= r2.encode().len() {
        lemma_prefixes_nest(r1.encode(), r2.encode(), b);
        lemma_encodings_prefix_free(r1, r2);
    } else {
        lemma_prefixes_nest(r2.encode(), r1.encode(), b);
        lemma_encodings_prefix_free(r2, r1);
    }
}

/// Round trip: a request followed by anything parses back to that request,
/// with the rest left over.
pub proof fn law_round_trip(r: RequestView, rest: Seq<char>)
    requires
        r.well_formed(),
    ensures
        parse(r.encode() + rest) == (Verdict::Parsed { request: r, rest }),
{
    let b = r.encode() + rest;
    assert(r.encode() =~= b.subrange(0, r.encode().len() as int));
    assert(b.skip(r.encode().len() as int) =~= rest);
    match r {
        RequestView::Store { key, value } => {
            assert(encode_store(key, value).is_prefix_of(b));
            let (k, v) = choose|k: Seq<char>, v: Seq<char>|
                is_word(k) && is_word(v) && #[trigger] encode_store(k, v).is_prefix_of(b);
            lemma_one_request_at_start(r, RequestView::Store { key: k, value: v }, b);
        },
        RequestView::Load { key } => {
            assert(encode_load(key).is_prefix_of(b));
            if starts_with_store(b) {
                let (k, v) = choose|k: Seq<char>, v: Seq<char>|
                    is_word(k) && is_word(v) && #[trigger] encode_store(k, v).is_prefix_of(b);
                lemma_one_request_at_start(r, RequestView::Store { key: k, value: v }, b);
            }
            let k = choose|k: Seq<char>| is_word(k) && #[trigger] encode_load(k).is_prefix_of(b);
            lemma_one_request_at_start(r, RequestView::Load { key: k }, b);
        },
    }
}

/// A buffer cannot both begin with a complete request and be a strict prefix
/// of one.
pub proof fn lemma_complete_or_growing(b: Seq<char>)
    ensures
        !(starts_with_request(b) && could_become_request(b)),
{
    if starts_with_request(b) && could_become_request(b) {
        let r1 = if starts_with_store(b) {
            let (k, v) = choose|k: Seq<char>, v: Seq<char>|
                is_word(k) && is_word(v) && #[trigger] encode_store(k, v).is_prefix_of(b);
            RequestView::Store { key: k, value: v }
        } else {
            let k = choose|k: Seq<char>| is_word(k) && #[trigger] encode_load(k).is_prefix_of(b);
            RequestView::Load { key: k }
        };
        let r2 = if could_become_store(b) {
            let (k, v) = choose|k: Seq<char>, v: Seq<char>|
                is_word(k) && is_word(v) && b.len() < encode_store(k, v).len() && b.is_prefix_of(
                    #[trigger] encode_store(k, v),
                );
            RequestView::Store { key: k, value: v }
        } else {
            let k = choose|k: Seq<char>|
                is_word(k) && b.len() < encode_load(k).len() && b.is_prefix_of(
                    #[trigger] encode_load(k),
                );
            RequestView::Load { key: k }
        };
        lemma_prefix_index(r1.encode(), b);
        lemma_prefix_index(b, r2.encode());
        assert(r1.encode() =~= r2.encode().subrange(0, r1.encode().len() as int));
        lemma_encodings_prefix_free(r1, r2);
    }
}

/// Every buffer gets exactly one verdict, and each verdict says what the
/// grammar says of the buffer: a parsed request is well formed and stands at
/// the start, followed by the rest.
pub proof fn law_verdicts_partition(b: Seq<char>)
    ensures
        parse(b) is Parsed <==> starts_with_request(b),
        parse(b) is Incomplete <==> could_become_request(b),
        parse(b) is Malformed <==> !starts_with_request(b) && !could_become_request(b),
        parse(b) matches Verdict::Parsed { request, rest } ==> request.well_formed() && b
            == request.encode() + rest,
{
    lemma_complete_or_growing(b);
    if let Verdict::Parsed { request, rest } = parse(b) {
        lemma_prefix_index(request.encode(), b);
        assert(b =~= request.encode() + rest);
    }
}

/// Splitting: every split of a request's encoding whose second part is not
/// empty leaves a first part that is incomplete.
pub proof fn law_split_is_incomplete(r: RequestView, a: Seq<char>, c: Seq<char>)
    requires
        r.well_formed(),
        r.encode() == a + c,
        c.len() > 0,
    ensures
        parse(a) == Verdict::Incomplete,
{
    let e = r.encode();
    assert(a =~= e.subrange(0, a.len() as int));
    match r {
        RequestView::Store { key, value } => {
            assert(a.is_prefix_of(encode_store(key, value)));
        },
        RequestView::Load { key } => {
            assert(a.is_prefix_of(encode_load(key)));
        },
    }
    lemma_complete_or_growing(a);
}

/// Dead ends stay dead: whatever follows a malformed buffer, the result is
/// malformed.
pub proof fn law_malformed_stays_malformed(b: Seq<char>, s: Seq<char>)
    requires
        parse(b) is Malformed,
    ensures
        parse(b + s) is Malformed,
{
    let bs = b + s;
    assert(b =~= bs.subrange(0, b.len() as int));
    lemma_complete_or_growing(b);
    if starts_with_request(bs) || could_become_request(bs) {
        let r = if starts_with_store(bs) {
            let (k, v) = choose|k: Seq<char>, v: Seq<char>|
                is_word(k) && is_word(v) && #[trigger] encode_store(k, v).is_prefix_of(bs);
            RequestView::Store { key: k, value: v }
        } else if starts_with_load(bs) {
            let k = choose|k: Seq<char>| is_word(k) && #[trigger] encode_load(k).is_prefix_of(bs);
            RequestView::Load { key: k }
        } else if could_become_store(bs) {
            let (k, v) = choose|k: Seq<char>, v: Seq<char>|
                is_word(k) && is_word(v) && bs.len() < encode_store(k, v).len() && bs.is_prefix_of(
                    #[trigger] encode_store(k, v),
                );
            RequestView::Store { key: k, value: v }
        } else {
            let k = choose|k: Seq<char>|
                is_word(k) && bs.len() < encode_load(k).len() && bs.is_prefix_of(
                    #[trigger] encode_load(k),
                );
            RequestView::Load { key: k }
        };
        let e = r.encode();
        // `b` and `e` are both prefixes of `bs`, or `bs` is a prefix of `e`.
        if e.len() <= b.len() {
            lemma_prefixes_nest(e, b, bs);
            law_round_trip(r, b.skip(e.len() as int));
            lemma_prefix_index(e, b);
            assert(b =~= e + b.skip(e.len() as int));
        } else {
            if e.is_prefix_of(bs) {
                lemma_prefixes_nest(b, e, bs);
            } else {
                lemma_prefix_index(bs, e);
                assert(b =~= e.subrange(0, b.len() as int));
            }
            let tail = e.skip(b.len() as int);
            lemma_prefix_index(b, e);
            assert(e =~= b + tail);
            law_split_is_incomplete(r, b, tail);
        }
    }
}

/// An incomplete buffer can always be completed: some non-empty continuation
/// makes it begin with a request, so it is not malformed.
pub proof fn law_incomplete_can_complete(b: Seq<char>)
    requires
        parse(b) is Incomplete,
    ensures
        exists|s: Seq<char>| s.len() > 0 && #[trigger] parse(b + s) is Parsed,
{
    let r = if could_become_store(b) {
        let (k, v) = choose|k: Seq<char>, v: Seq<char>|
            is_word(k) && is_word(v) && b.len() < encode_store(k, v).len() && b.is_prefix_of(
                #[trigger] encode_store(k, v),
            );
        RequestView::Store { key: k, value: v }
    } else {
        let k = choose|k: Seq<char>|
            is_word(k) && b.len() < encode_load(k).len() && b.is_prefix_of(
                #[trigger] encode_load(k),
            );
        RequestView::Load { key: k }
    };
    let e = r.encode();
    let s = e.skip(b.len() as int);
    lemma_prefix_index(b, e);
    assert(b + s =~= e);
    assert(e + Seq::<char>::empty() =~= e);
    law_round_trip(r, Seq::<char>::empty());
    assert(parse(b + s) is Parsed);
}

} // verus!
