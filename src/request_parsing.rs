use vstd::prelude::*;

use vstd::string::{StrSliceExecFns, StringExecFns};

use crate::grammar::{
    could_become_load, could_become_store, encode_load, encode_store, is_letter, is_word,
    law_round_trip, law_verdicts_partition, lemma_load_layout, lemma_prefix_index,
    lemma_store_layout, load_tag, parse, starts_with_load, starts_with_store, store_tag, Verdict,
};
use crate::request::{LoadRequest, Request, RequestView, StoreRequest, TaskError};


verus! {

/// The characters of `s`, in order.
fn chars_of(s: &str) -> (r: Vec<char>)
    ensures
        r@ == s@,
{
    broadcast use vstd::string::group_string_axioms;
    let mut r: Vec<char> = Vec::new();
    for c in it: s.chars()
        invariant
            it.seq() == s@,
            r@ == it.seq().take(it.index() as int),
    {
        r.push(c);
    }
    assert(r@ =~= s@);
    r
}

/// The end of the run of letters that starts at `from`.
fn skip_letters(b: &Vec<char>, from: usize) -> (end: usize)
    requires
        from <= b@.len(),
    ensures
        from <= end <= b@.len(),
        is_word(b@.subrange(from as int, end as int)),
        end < b@.len() ==> !is_letter(b@[end as int]),
{
    let mut end = from;
    while end < b.len() && 'a' <= b[end] && b[end] <= 'z'
        invariant
            from <= end <= b@.len(),
            forall|i: int| from <= i < end ==> is_letter(#[trigger] b@[i]),
        decreases b@.len() - end,
    {
        end = end + 1;
    }
    end
}

/// A run of letters from `from` that ends before a non-letter at `from + n`
/// ends exactly there.
proof fn lemma_run_end(b: Seq<char>, from: int, end: int, n: int)
    requires
        0 <= from <= end <= b.len(),
        0 <= n,
        from + n < b.len(),
        is_word(b.subrange(from, end)),
        end < b.len() ==> !is_letter(b[end]),
        forall|i: int| from <= i < from + n ==> is_letter(#[trigger] b[i]),
        !is_letter(b[from + n]),
    ensures
        end == from + n,
{
    if end < from + n {
        assert(is_letter(b[end]));
    } else if end > from + n {
        assert(is_letter(b.subrange(from, end)[n]));
    }
}

/// The characters of `STORE$`.
fn store_tag_chars() -> (r: Vec<char>)
    ensures
        r@ == store_tag(),
{
    let r = vec!['S', 'T', 'O', 'R', 'E', '$'];
    assert(r@ =~= store_tag());
    r
}

/// Whether `b` begins with `tag`.
fn begins_with(b: &Vec<char>, tag: &Vec<char>) -> (r: bool)
    ensures
        r == tag@.is_prefix_of(b@),
{
    if tag.len() > b.len() {
        return false;
    }
    let mut i: usize = 0;
    while i < tag.len()
        invariant
            tag@.len() <= b@.len(),
            i <= tag@.len(),
            forall|j: int| 0 <= j < i ==> tag@[j] == b@[j],
        decreases tag@.len() - i,
    {
        if tag[i] != b[i] {
            return false;
        }
        i = i + 1;
    }
    assert(tag@ =~= b@.subrange(0, tag@.len() as int));
    true
}

/// Where the first store request of `b` ends: the positions of its second
/// and third `$`, if `b` begins with one.
fn store_bounds(b: &Vec<char>) -> (r: Option<(usize, usize)>)
    ensures
        r is Some <==> starts_with_store(b@),
        r matches Some((k_end, v_end)) ==> {
            &&& 6 <= k_end < v_end < b@.len()
            &&& encode_store(
                b@.subrange(6, k_end as int),
                b@.subrange(k_end + 1, v_end as int),
            ) == b@.subrange(0, v_end + 1)
            &&& is_word(b@.subrange(6, k_end as int))
            &&& is_word(b@.subrange(k_end + 1, v_end as int))
        },
{
    let tag = store_tag_chars();
    if !begins_with(b, &tag) {
        return None;
    }
    let k_end = skip_letters(b, 6);
    if k_end == b.len() || b[k_end] != '$' {
        proof {
            if starts_with_store(b@) {
                let (k, v) = choose|k: Seq<char>, v: Seq<char>|
                    is_word(k) && is_word(v) && #[trigger] encode_store(k, v).is_prefix_of(b@);
                lemma_store_layout(k, v);
                lemma_prefix_index(encode_store(k, v), b@);
                lemma_run_end(b@, 6, k_end as int, k.len() as int);
            }
        }
        return None;
    }
    let v_end = skip_letters(b, k_end + 1);
    if v_end == b.len() || b[v_end] != '$' {
        proof {
            if starts_with_store(b@) {
                let (k, v) = choose|k: Seq<char>, v: Seq<char>|
                    is_word(k) && is_word(v) && #[trigger] encode_store(k, v).is_prefix_of(b@);
                lemma_store_layout(k, v);
                lemma_prefix_index(encode_store(k, v), b@);
                lemma_run_end(b@, 6, k_end as int, k.len() as int);
                lemma_run_end(b@, k_end + 1, v_end as int, v.len() as int);
            }
        }
        return None;
    }
    assert(encode_store(b@.subrange(6, k_end as int), b@.subrange(k_end + 1, v_end as int))
        =~= b@.subrange(0, v_end + 1));
    assert(encode_store(b@.subrange(6, k_end as int), b@.subrange(k_end + 1, v_end as int))
        .is_prefix_of(b@));
    Some((k_end, v_end))
}

/// The characters of `LOAD$`.
fn load_tag_chars() -> (r: Vec<char>)
    ensures
        r@ == load_tag(),
{
    let r = vec!['L', 'O', 'A', 'D', '$'];
    assert(r@ =~= load_tag());
    r
}

/// Where the first load request of `b` ends: the position of its second `$`,
/// if `b` begins with one.
fn load_bounds(b: &Vec<char>) -> (r: Option<usize>)
    ensures
        r is Some <==> starts_with_load(b@),
        r matches Some(k_end) ==> {
            &&& 5 <= k_end < b@.len()
            &&& encode_load(b@.subrange(5, k_end as int)) == b@.subrange(0, k_end + 1)
            &&& is_word(b@.subrange(5, k_end as int))
        },
{
    let tag = load_tag_chars();
    if !begins_with(b, &tag) {
        return None;
    }
    let k_end = skip_letters(b, 5);
    if k_end == b.len() || b[k_end] != '$' {
        proof {
            if starts_with_load(b@) {
                let k = choose|k: Seq<char>| is_word(k) && #[trigger] encode_load(k).is_prefix_of(b@);
                lemma_load_layout(k);
                lemma_prefix_index(encode_load(k), b@);
                lemma_run_end(b@, 5, k_end as int, k.len() as int);
            }
        }
        return None;
    }
    assert(encode_load(b@.subrange(5, k_end as int)) =~= b@.subrange(0, k_end + 1));
    assert(encode_load(b@.subrange(5, k_end as int)).is_prefix_of(b@));
    Some(k_end)
}

/// Whether `b` is a strict prefix of some store request.
fn store_in_progress(b: &Vec<char>) -> (r: bool)
    ensures
        r == could_become_store(b@),
{
    let tag = store_tag_chars();
    let ghost empty = Seq::<char>::empty();
    proof {
        lemma_store_layout(empty, empty);
    }
    if b.len() <= tag.len() {
        let r = begins_with(&tag, b);
        proof {
            if r {
                lemma_prefix_index(b@, tag@);
                assert(b@ =~= encode_store(empty, empty).subrange(0, b@.len() as int));
            } else if could_become_store(b@) {
                let (k, v) = choose|k: Seq<char>, v: Seq<char>|
                    is_word(k) && is_word(v) && b@.len() < encode_store(k, v).len()
                        && b@.is_prefix_of(#[trigger] encode_store(k, v));
                lemma_store_layout(k, v);
                lemma_prefix_index(b@, encode_store(k, v));
                assert(b@ =~= tag@.subrange(0, b@.len() as int));
            }
        }
        return r;
    }
    if !begins_with(b, &tag) {
        proof {
            if could_become_store(b@) {
                let (k, v) = choose|k: Seq<char>, v: Seq<char>|
                    is_word(k) && is_word(v) && b@.len() < encode_store(k, v).len()
                        && b@.is_prefix_of(#[trigger] encode_store(k, v));
                lemma_store_layout(k, v);
                lemma_prefix_index(b@, encode_store(k, v));
                assert(tag@ =~= b@.subrange(0, 6));
            }
        }
        return false;
    }
    proof {
        lemma_prefix_index(tag@, b@);
    }
    let k_end = skip_letters(b, 6);
    if k_end == b.len() {
        let ghost k = b@.subrange(6, k_end as int);
        proof {
            lemma_store_layout(k, empty);
            assert(b@ =~= encode_store(k, empty).subrange(0, b@.len() as int));
        }
        return true;
    }
    if b[k_end] != '$' {
        proof {
            if could_become_store(b@) {
                let (k, v) = choose|k: Seq<char>, v: Seq<char>|
                    is_word(k) && is_word(v) && b@.len() < encode_store(k, v).len()
                        && b@.is_prefix_of(#[trigger] encode_store(k, v));
                lemma_store_layout(k, v);
                lemma_prefix_index(b@, encode_store(k, v));
                if 6 + k.len() < b@.len() {
                    lemma_run_end(b@, 6, k_end as int, k.len() as int);
                } else {
                    assert(is_letter(b@[k_end as int]));
                }
            }
        }
        return false;
    }
    let v_end = skip_letters(b, k_end + 1);
    let ghost k = b@.subrange(6, k_end as int);
    let ghost v = b@.subrange(k_end + 1, v_end as int);
    proof {
        lemma_store_layout(k, v);
        if v_end == b.len() {
            assert(b@ =~= encode_store(k, v).subrange(0, b@.len() as int));
        } else if could_become_store(b@) {
            let (k2, v2) = choose|k2: Seq<char>, v2: Seq<char>|
                is_word(k2) && is_word(v2) && b@.len() < encode_store(k2, v2).len()
                    && b@.is_prefix_of(#[trigger] encode_store(k2, v2));
            lemma_store_layout(k2, v2);
            lemma_prefix_index(b@, encode_store(k2, v2));
            if 6 + k2.len() < b@.len() {
                lemma_run_end(b@, 6, k_end as int, k2.len() as int);
                if 7 + k2.len() + v2.len() < b@.len() {
                } else {
                    assert(is_letter(b@[v_end as int]));
                }
            } else {
                assert(is_letter(b@[k_end as int]));
            }
        }
    }
    v_end == b.len()
}

/// Whether `b` is a strict prefix of some load request.
fn load_in_progress(b: &Vec<char>) -> (r: bool)
    ensures
        r == could_become_load(b@),
{
    let tag = load_tag_chars();
    let ghost empty = Seq::<char>::empty();
    proof {
        lemma_load_layout(empty);
    }
    if b.len() <= tag.len() {
        let r = begins_with(&tag, b);
        proof {
            if r {
                lemma_prefix_index(b@, tag@);
                assert(b@ =~= encode_load(empty).subrange(0, b@.len() as int));
            } else if could_become_load(b@) {
                let k = choose|k: Seq<char>|
                    is_word(k) && b@.len() < encode_load(k).len() && b@.is_prefix_of(
                        #[trigger] encode_load(k),
                    );
                lemma_load_layout(k);
                lemma_prefix_index(b@, encode_load(k));
                assert(b@ =~= tag@.subrange(0, b@.len() as int));
            }
        }
        return r;
    }
    if !begins_with(b, &tag) {
        proof {
            if could_become_load(b@) {
                let k = choose|k: Seq<char>|
                    is_word(k) && b@.len() < encode_load(k).len() && b@.is_prefix_of(
                        #[trigger] encode_load(k),
                    );
                lemma_load_layout(k);
                lemma_prefix_index(b@, encode_load(k));
                assert(tag@ =~= b@.subrange(0, 5));
            }
        }
        return false;
    }
    proof {
        lemma_prefix_index(tag@, b@);
    }
    let k_end = skip_letters(b, 5);
    let ghost k = b@.subrange(5, k_end as int);
    proof {
        lemma_load_layout(k);
        if k_end == b.len() {
            assert(b@ =~= encode_load(k).subrange(0, b@.len() as int));
        } else if could_become_load(b@) {
            let k2 = choose|k2: Seq<char>|
                is_word(k2) && b@.len() < encode_load(k2).len() && b@.is_prefix_of(
                    #[trigger] encode_load(k2),
                );
            lemma_load_layout(k2);
            lemma_prefix_index(b@, encode_load(k2));
            assert(is_letter(b@[k_end as int]));
        }
    }
    k_end == b.len()
}

/// Whether `message` begins with a complete store request,
/// `STORE$` key `$` value `$`.
pub fn is_store_request(message: &str) -> (r: bool)
    ensures
        r == starts_with_store(message@),
{
    store_bounds(&chars_of(message)).is_some()
}

/// Whether `message` begins with a complete load request, `LOAD$` key `$`.
pub fn is_load_request(message: &str) -> (r: bool)
    ensures
        r == starts_with_load(message@),
{
    load_bounds(&chars_of(message)).is_some()
}

/// Whether more characters could turn `message` into a store request.
pub fn could_become_store_request(message: &str) -> (r: bool)
    ensures
        r == could_become_store(message@),
{
    store_in_progress(&chars_of(message))
}

/// Whether more characters could turn `message` into a load request.
pub fn could_become_load_request(message: &str) -> (r: bool)
    ensures
        r == could_become_load(message@),
{
    load_in_progress(&chars_of(message))
}

/// Splits a message that begins with a store request,
/// `STORE$` key `$` value `$` rest, into key, value and rest.
pub fn split_store_request(message: &str) -> (r: (String, String, String))
    requires
        starts_with_store(message@),
    ensures
        is_word(r.0@),
        is_word(r.1@),
        message@ == encode_store(r.0@, r.1@) + r.2@,
{
    let b = chars_of(message);
    let bounds = store_bounds(&b);
    let k_end = bounds.unwrap().0;
    let v_end = bounds.unwrap().1;
    let key = String::from_str(message.substring_char(6, k_end));
    let value = String::from_str(message.substring_char(k_end + 1, v_end));
    let n = b.len();
    let rest = String::from_str(message.substring_char(v_end + 1, n));
    assert(message@ =~= message@.subrange(0, v_end + 1) + rest@);
    (key, value, rest)
}

/// Splits a message that begins with a load request, `LOAD$` key `$` rest,
/// into key and rest.
pub fn split_load_request(message: &str) -> (r: (String, String))
    requires
        starts_with_load(message@),
    ensures
        is_word(r.0@),
        message@ == encode_load(r.0@) + r.1@,
{
    let b = chars_of(message);
    let bounds = load_bounds(&b);
    let k_end = bounds.unwrap();
    let key = String::from_str(message.substring_char(5, k_end));
    let n = b.len();
    let rest = String::from_str(message.substring_char(k_end + 1, n));
    assert(message@ =~= message@.subrange(0, k_end + 1) + rest@);
    (key, rest)
}

/// Takes the first request off the front of `message`.
///
/// Returns `Ok(Some(request))` and leaves the rest in `message` when
/// `message` begins with a complete request; `Ok(None)` when it does not
/// yet, but more characters could make it one; `Err` when no continuation
/// can. In the last two cases `message` is left as it was.
pub fn try_parse_request(message: &mut String) -> (r: Result<Option<Request>, TaskError>)
    ensures
        match parse(old(message)@) {
            Verdict::Parsed { request, rest } => {
                &&& r matches Ok(Some(q))
                &&& q@ == request
                &&& final(message)@ == rest
            },
            Verdict::Incomplete => r matches Ok(None) && final(message)@ == old(message)@,
            Verdict::Malformed => r is Err && final(message)@ == old(message)@,
        },
{
    proof {
        law_verdicts_partition(message@);
    }
    if is_store_request(message.as_str()) {
        let (key, value, rest) = split_store_request(message.as_str());
        proof {
            law_round_trip(RequestView::Store { key: key@, value: value@ }, rest@);
        }
        *message = rest;
        Ok(Some(Request::Store(StoreRequest::new(key, value))))
    } else if is_load_request(message.as_str()) {
        let (key, rest) = split_load_request(message.as_str());
        proof {
            law_round_trip(RequestView::Load { key: key@ }, rest@);
        }
        *message = rest;
        Ok(Some(Request::Load(LoadRequest::new(key))))
    } else if could_become_store_request(message.as_str()) || could_become_load_request(
        message.as_str(),
    ) {
        Ok(None)
    } else {
        Err(TaskError)
    }
}

} // verus!
