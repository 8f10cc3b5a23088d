//! The client address candidates of an HTTP request, in priority order.
//!
//! 1. `X-Forwarded-For`: each comma-separated entry, trimmed, in order;
//! 2. `X-Real-IP`, trimmed;
//! 3. `CF-Connecting-IP` (Cloudflare), trimmed.
//!
//! A header counts only when it is present and its first value is visible
//! ASCII text. The client address is the first candidate that parses as an
//! IP address ([`first_accepted`]).
//!
//! Trust caveat: these headers are only trustworthy if every hop between the
//! client and the handler is controlled. Behind API Gateway or an ALB they
//! are set by the proxy; a function URL exposed without a trusted proxy lets
//! any caller forge them.

use vstd::prelude::*;
use vstd::string::*;

use crate::headers::{header_map_fields, header_text, header_text_of, is_visible_ascii, visible_text};

verus! {

/// A character that `str::trim` removes at either end of ASCII text.
pub open spec fn is_trim_space(c: char) -> bool {
    c == ' ' || ('\t' <= c && c <= '\r')
}

/// The text without its leading white space.
pub open spec fn trim_start_text(s: Seq<char>) -> Seq<char>
    decreases s.len(),
{
    if s.len() > 0 && is_trim_space(s[0]) {
        trim_start_text(s.drop_first())
    } else {
        s
    }
}

/// The text without its trailing white space.
pub open spec fn trim_end_text(s: Seq<char>) -> Seq<char>
    decreases s.len(),
{
    if s.len() > 0 && is_trim_space(s.last()) {
        trim_end_text(s.drop_last())
    } else {
        s
    }
}

/// The text without white space at either end, as `str::trim` gives it.
pub open spec fn trim_text(s: Seq<char>) -> Seq<char> {
    trim_end_text(trim_start_text(s))
}

/// The pieces of `s` between commas, in order, as `str::split(',')` gives
/// them (an empty text is one empty piece).
pub open spec fn split_commas(s: Seq<char>) -> Seq<Seq<char>>
    decreases s.len(),
{
    if s.len() == 0 {
        seq![Seq::empty()]
    } else {
        let init = split_commas(s.drop_last());
        if s.last() == ',' {
            init.push(Seq::empty())
        } else {
            init.update(init.len() - 1, init.last().push(s.last()))
        }
    }
}

/// The candidates of an `X-Forwarded-For` value: each comma-separated entry,
/// trimmed, in order.
pub open spec fn forwarded_candidates(s: Seq<char>) -> Seq<Seq<char>> {
    split_commas(s).map_values(|p: Seq<char>| trim_text(p))
}

/// The candidates that one header gives, if its text is there.
pub open spec fn single_candidate(text: Option<Seq<char>>) -> Seq<Seq<char>> {
    match text {
        Some(t) => seq![trim_text(t)],
        None => seq![],
    }
}

/// The client address candidates of a request's headers, in priority order.
pub open spec fn client_ip_candidate_texts(fields: Map<Seq<char>, Seq<Seq<u8>>>) -> Seq<Seq<char>> {
    let forwarded = match header_text_of(fields, "x-forwarded-for"@) {
        Some(t) => forwarded_candidates(t),
        None => seq![],
    };
    forwarded + single_candidate(header_text_of(fields, "x-real-ip"@)) + single_candidate(
        header_text_of(fields, "cf-connecting-ip"@),
    )
}

/// No white space at either end of the text.
pub open spec fn is_trimmed(s: Seq<char>) -> bool {
    s.len() > 0 ==> !is_trim_space(s[0]) && !is_trim_space(s.last())
}

proof fn lemma_trim_start_suffix(s: Seq<char>)
    ensures
        trim_start_text(s).len() <= s.len(),
        trim_start_text(s) =~= s.skip(s.len() - trim_start_text(s).len()),
        trim_start_text(s).len() > 0 ==> !is_trim_space(trim_start_text(s)[0]),
    decreases s.len(),
{
    if s.len() > 0 && is_trim_space(s[0]) {
        lemma_trim_start_suffix(s.drop_first());
    }
}

proof fn lemma_trim_end_prefix(s: Seq<char>)
    ensures
        trim_end_text(s).len() <= s.len(),
        trim_end_text(s) =~= s.take(trim_end_text(s).len() as int),
        trim_end_text(s).len() > 0 ==> !is_trim_space(trim_end_text(s).last()),
    decreases s.len(),
{
    if s.len() > 0 && is_trim_space(s.last()) {
        lemma_trim_end_prefix(s.drop_last());
    }
}

/// Trimming leaves no white space at either end and brings in no character
/// that the text did not hold.
pub proof fn lemma_trim_text_trimmed(s: Seq<char>)
    ensures
        is_trimmed(trim_text(s)),
        forall|c: char| !s.contains(c) ==> !trim_text(s).contains(c),
{
    let t = trim_start_text(s);
    lemma_trim_start_suffix(s);
    lemma_trim_end_prefix(t);
    let r = trim_text(s);
    if r.len() > 0 {
        assert(r[0] == t[0]);
    }
    assert forall|c: char| !s.contains(c) implies !r.contains(c) by {
        if r.contains(c) {
            let i = choose|i: int| 0 <= i < r.len() && r[i] == c;
            assert(t[i] == c);
            assert(s[s.len() - t.len() + i] == c);
        }
    }
}

proof fn lemma_split_pieces_have_no_comma(s: Seq<char>)
    ensures
        forall|i: int| 0 <= i < split_commas(s).len() ==> !(#[trigger] split_commas(s)[i]).contains(','),
    decreases s.len(),
{
    if s.len() > 0 {
        let init = split_commas(s.drop_last());
        lemma_split_pieces_have_no_comma(s.drop_last());
        lemma_split_commas_nonempty(s.drop_last());
        let all = split_commas(s);
        if s.last() != ',' {
            let last = init.last().push(s.last());
            assert(!last.contains(',')) by {
                assert(!init[init.len() - 1].contains(','));
                if last.contains(',') {
                    let k = choose|k: int| 0 <= k < last.len() && last[k] == ',';
                    assert(init.last()[k] == ',');
                }
            }
            assert forall|i: int| 0 <= i < all.len() implies !(#[trigger] all[i]).contains(',') by {
                if i < init.len() - 1 {
                    assert(all[i] == init[i]);
                }
            }
        } else {
            assert forall|i: int| 0 <= i < all.len() implies !(#[trigger] all[i]).contains(',') by {
                if i < init.len() {
                    assert(all[i] == init[i]);
                } else {
                    assert(all[i] =~= Seq::<char>::empty());
                }
            }
        }
    }
}

/// Every `X-Forwarded-For` candidate is one entry of the list: it holds no
/// comma and has no white space at either end.
pub proof fn lemma_forwarded_candidates_are_entries(s: Seq<char>)
    ensures
        forall|i: int|
            0 <= i < forwarded_candidates(s).len() ==> is_trimmed(
                #[trigger] forwarded_candidates(s)[i],
            ) && !forwarded_candidates(s)[i].contains(','),
{
    lemma_split_pieces_have_no_comma(s);
    assert forall|i: int| 0 <= i < forwarded_candidates(s).len() implies is_trimmed(
        #[trigger] forwarded_candidates(s)[i],
    ) && !forwarded_candidates(s)[i].contains(',') by {
        lemma_trim_text_trimmed(split_commas(s)[i]);
    }
}

/// No client address candidate has white space at either end.
pub proof fn lemma_client_ip_candidates_trimmed(fields: Map<Seq<char>, Seq<Seq<u8>>>)
    ensures
        forall|i: int|
            0 <= i < client_ip_candidate_texts(fields).len() ==> is_trimmed(
                #[trigger] client_ip_candidate_texts(fields)[i],
            ),
{
    let forwarded = match header_text_of(fields, "x-forwarded-for"@) {
        Some(t) => forwarded_candidates(t),
        None => seq![],
    };
    let real_ip = single_candidate(header_text_of(fields, "x-real-ip"@));
    let cf = single_candidate(header_text_of(fields, "cf-connecting-ip"@));
    if let Some(t) = header_text_of(fields, "x-forwarded-for"@) {
        lemma_forwarded_candidates_are_entries(t);
    }
    if let Some(t) = header_text_of(fields, "x-real-ip"@) {
        lemma_trim_text_trimmed(t);
    }
    if let Some(t) = header_text_of(fields, "cf-connecting-ip"@) {
        lemma_trim_text_trimmed(t);
    }
    let all = client_ip_candidate_texts(fields);
    assert(all == forwarded + real_ip + cf);
    assert forall|i: int| 0 <= i < all.len() implies is_trimmed(#[trigger] all[i]) by {
        if i < forwarded.len() {
            assert(all[i] == forwarded[i]);
        } else if i < forwarded.len() + real_ip.len() {
            assert(all[i] == real_ip[i - forwarded.len()]);
        } else {
            assert(all[i] == cf[i - forwarded.len() - real_ip.len()]);
        }
    }
}

/// The candidates come in priority order: first the trimmed
/// `X-Forwarded-For` entries (where that header is text), then the trimmed
/// `X-Real-IP` value (where present), and last the trimmed
/// `CF-Connecting-IP` value (where present), and nothing else.
pub proof fn lemma_candidate_priority(fields: Map<Seq<char>, Seq<Seq<u8>>>)
    ensures
        ({
            let forwarded = match header_text_of(fields, "x-forwarded-for"@) {
                Some(t) => forwarded_candidates(t),
                None => Seq::<Seq<char>>::empty(),
            };
            let real_ip = header_text_of(fields, "x-real-ip"@);
            let cf = header_text_of(fields, "cf-connecting-ip"@);
            let cands = client_ip_candidate_texts(fields);
            &&& cands.len() == forwarded.len() + (if real_ip is Some {
                1int
            } else {
                0int
            }) + (if cf is Some {
                1int
            } else {
                0int
            })
            &&& forall|i: int| 0 <= i < forwarded.len() ==> cands[i] == forwarded[i]
            &&& real_ip is Some ==> cands[forwarded.len() as int] == trim_text(real_ip.unwrap())
            &&& cf is Some ==> cands[cands.len() - 1] == trim_text(cf.unwrap())
        }),
{
}

proof fn lemma_split_commas_nonempty(s: Seq<char>)
    ensures
        split_commas(s).len() >= 1,
    decreases s.len(),
{
    if s.len() > 0 {
        lemma_split_commas_nonempty(s.drop_last());
    }
}

proof fn lemma_trimmed_pieces_push(pieces: Seq<Seq<char>>)
    requires
        pieces.len() >= 1,
    ensures
        pieces.map_values(|p: Seq<char>| trim_text(p)) =~= pieces.drop_last().map_values(
            |p: Seq<char>| trim_text(p),
        ).push(trim_text(pieces.last())),
{
}

fn is_space_byte(b: u8) -> (r: bool)
    ensures
        r == (b == 32 || (9 <= b && b <= 13)),
{
    b == 32u8 || (9u8 <= b && b <= 13u8)
}

/// `s[lo..hi]` without white space at either end.
fn trimmed_piece<'a>(s: &'a str, n: usize, lo: usize, hi: usize) -> (t: &'a str)
    requires
        s.is_ascii(),
        n == s@.len(),
        lo <= hi <= n,
    ensures
        t@ == trim_text(s@.subrange(lo as int, hi as int)),
        t.is_ascii(),
{
    let mut a = lo;
    while a < hi && is_space_byte(s.get_ascii(a))
        invariant
            s.is_ascii(),
            n == s@.len(),
            lo <= a <= hi <= n,
            trim_start_text(s@.subrange(lo as int, hi as int)) == trim_start_text(
                s@.subrange(a as int, hi as int),
            ),
        decreases hi - a,
    {
        assert(s@.subrange(a as int, hi as int).drop_first() =~= s@.subrange(a + 1, hi as int));
        a = a + 1;
    }
    assert(trim_start_text(s@.subrange(a as int, hi as int)) == s@.subrange(a as int, hi as int));
    let mut b = hi;
    while b > a && is_space_byte(s.get_ascii(b - 1))
        invariant
            s.is_ascii(),
            n == s@.len(),
            lo <= a <= b <= hi <= n,
            trim_end_text(s@.subrange(a as int, hi as int)) == trim_end_text(
                s@.subrange(a as int, b as int),
            ),
        decreases b - a,
    {
        assert(s@.subrange(a as int, b as int).drop_last() =~= s@.subrange(a as int, b - 1));
        b = b - 1;
    }
    assert(trim_end_text(s@.subrange(a as int, b as int)) == s@.subrange(a as int, b as int));
    s.substring_ascii(a, b)
}

/// The candidates of an `X-Forwarded-For` text, appended to `out`.
fn push_forwarded_candidates<'a>(s: &'a str, out: &mut Vec<&'a str>)
    requires
        s.is_ascii(),
    ensures
        final(out)@.map_values(|x: &str| x@) == old(out)@.map_values(|x: &str| x@)
            + forwarded_candidates(s@),
{
    let n = s.unicode_len();
    let ghost base = old(out)@.map_values(|x: &str| x@);
    let mut start: usize = 0;
    let mut i: usize = 0;
    proof {
        assert(s@.take(0) =~= Seq::<char>::empty());
    }
    while i < n
        invariant
            s.is_ascii(),
            n == s@.len(),
            start <= i <= n,
            base == old(out)@.map_values(|x: &str| x@),
            split_commas(s@.take(i as int)).len() >= 1,
            split_commas(s@.take(i as int)).last() == s@.subrange(start as int, i as int),
            out@.map_values(|x: &str| x@) == base + split_commas(
                s@.take(i as int),
            ).drop_last().map_values(|p: Seq<char>| trim_text(p)),
        decreases n - i,
    {
        let ghost prev = split_commas(s@.take(i as int));
        assert(s@.take(i + 1).drop_last() =~= s@.take(i as int));
        assert(s@.take(i + 1).last() == s@[i as int]);
        let b = s.get_ascii(i);
        if b == 44u8 {
            let piece = trimmed_piece(s, n, start, i);
            let ghost before = out@;
            out.push(piece);
            proof {
                let next = split_commas(s@.take(i + 1));
                assert(next == prev.push(Seq::empty()));
                assert(next.drop_last() =~= prev);
                assert(out@.map_values(|x: &str| x@) =~= before.map_values(|x: &str| x@).push(piece@));
                lemma_trimmed_pieces_push(prev);
                assert(out@.map_values(|x: &str| x@) =~= base + next.drop_last().map_values(
                    |p: Seq<char>| trim_text(p),
                ));
                assert(s@.subrange(i + 1, i + 1) =~= Seq::<char>::empty());
            }
            start = i + 1;
        } else {
            proof {
                let next = split_commas(s@.take(i + 1));
                assert(next == prev.update(prev.len() - 1, prev.last().push(s@[i as int])));
                assert(next.drop_last() =~= prev.drop_last());
                assert(s@.subrange(start as int, i + 1) =~= prev.last().push(s@[i as int]));
            }
        }
        i = i + 1;
    }
    let piece = trimmed_piece(s, n, start, n);
    let ghost before = out@;
    out.push(piece);
    proof {
        let all = split_commas(s@.take(n as int));
        assert(s@.take(n as int) =~= s@);
        assert(out@.map_values(|x: &str| x@) =~= before.map_values(|x: &str| x@).push(piece@));
        lemma_trimmed_pieces_push(all);
        assert(out@.map_values(|x: &str| x@) =~= base + all.map_values(|p: Seq<char>| trim_text(p)));
    }
}

proof fn lemma_visible_text_is_ascii(bytes: Seq<u8>)
    requires
        visible_text(bytes) is Some,
    ensures
        vstd::utf8::is_ascii_chars(visible_text(bytes).unwrap()),
{
    let t = visible_text(bytes).unwrap();
    assert forall|i: int| 0 <= i < t.len() implies '\0' <= #[trigger] t[i] <= '\u{7f}' by {
        assert(t[i] == bytes[i] as char);
        assert(is_visible_ascii(bytes[i]));
    }
}

/// The client address candidates of `headers`, in priority order: the
/// trimmed entries of `X-Forwarded-For`, then `X-Real-IP`, then
/// `CF-Connecting-IP`, each header only where its first value is text.
pub fn client_ip_candidates<'a>(headers: &'a http::HeaderMap) -> (c: Vec<&'a str>)
    ensures
        c@.map_values(|x: &str| x@) == client_ip_candidate_texts(header_map_fields(*headers)),
{
    let ghost fields = header_map_fields(*headers);
    let mut out: Vec<&'a str> = Vec::new();
    proof {
        reveal_strlit("x-forwarded-for");
        reveal_strlit("x-real-ip");
        reveal_strlit("cf-connecting-ip");
    }
    match header_text(headers, "x-forwarded-for") {
        Some(t) => {
            proof {
                lemma_visible_text_is_ascii(fields["x-forwarded-for"@][0]);
            }
            push_forwarded_candidates(t, &mut out);
        },
        None => {},
    }
    let ghost forwarded = out@.map_values(|x: &str| x@);
    match header_text(headers, "x-real-ip") {
        Some(t) => {
            proof {
                lemma_visible_text_is_ascii(fields["x-real-ip"@][0]);
            }
            let n = t.unicode_len();
            out.push(trimmed_piece(t, n, 0, n));
            proof {
                assert(t@.subrange(0, n as int) =~= t@);
            }
        },
        None => {},
    }
    let ghost with_real = out@.map_values(|x: &str| x@);
    match header_text(headers, "cf-connecting-ip") {
        Some(t) => {
            proof {
                lemma_visible_text_is_ascii(fields["cf-connecting-ip"@][0]);
            }
            let n = t.unicode_len();
            out.push(trimmed_piece(t, n, 0, n));
            proof {
                assert(t@.subrange(0, n as int) =~= t@);
            }
        },
        None => {},
    }
    assert(out@.map_values(|x: &str| x@) =~= client_ip_candidate_texts(fields));
    out
}

/// The result of the first candidate, in order, that `accept` takes: the
/// candidates before it were refused.
pub fn first_accepted<'a, T, F: Fn(&'a str) -> Option<T>>(candidates: &Vec<&'a str>, accept: F) -> (r:
    Option<T>)
    requires
        forall|i: int| 0 <= i < candidates@.len() ==> accept.requires((candidates@[i],)),
    ensures
        r matches Some(v) ==> exists|i: int|
            0 <= i < candidates@.len() && accept.ensures((candidates@[i],), Some(v)) && forall|
                j: int,
            |
                0 <= j < i ==> accept.ensures((#[trigger] candidates@[j],), None::<T>),
        r is None ==> forall|i: int|
            0 <= i < candidates@.len() ==> accept.ensures((#[trigger] candidates@[i],), None::<T>),
{
    let n = candidates.len();
    let mut i: usize = 0;
    while i < n
        invariant
            n == candidates@.len(),
            i <= n,
            forall|k: int| 0 <= k < candidates@.len() ==> accept.requires((candidates@[k],)),
            forall|j: int| 0 <= j < i ==> accept.ensures((#[trigger] candidates@[j],), None::<T>),
        decreases n - i,
    {
        let c = candidates[i];
        match accept(c) {
            Some(v) => {
                return Some(v);
            },
            None => {},
        }
        i = i + 1;
    }
    None
}

} // verus!
