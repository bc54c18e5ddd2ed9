//! Freshness rules for what the origin sends back: `Cache-Control` parsing
//! and the entries built from full and `304 Not Modified` responses.
use vstd::prelude::*;
use crate::cache::{Entry, EntryView};
use crate::text::{
    chars_of, split_ranges, trim_range, range_starts_with, range_equals, parse_u64_range, split_on,
    trim_ws, starts_with, parse_u64, lemma_split_on_nonempty,
};

verus! {

/// The freshness lifetime given to responses that do not state one.
pub const DEFAULT_MAX_AGE_SECS: u64 = 60;

/// What the origin answered, and what it cost.
pub struct OriginResponse {
    pub entry: Entry,
    /// Bytes actually transferred from the origin. A 304 moves headers only,
    /// which is the entire point of revalidation.
    pub bytes_from_origin: usize,
}

pub open spec fn opt_str_view(o: Option<&str>) -> Option<Seq<char>> {
    match o {
        Some(s) => Some(s@),
        None => None,
    }
}

pub open spec fn max_age_prefix() -> Seq<char> {
    seq!['m', 'a', 'x', '-', 'a', 'g', 'e', '=']
}

pub open spec fn no_store() -> Seq<char> {
    seq!['n', 'o', '-', 's', 't', 'o', 'r', 'e']
}

pub open spec fn no_cache() -> Seq<char> {
    seq!['n', 'o', '-', 'c', 'a', 'c', 'h', 'e']
}

/// What one `Cache-Control` directive decides, if anything: a well-formed
/// `max-age=<secs>` gives its seconds, `no-store` and `no-cache` give 0.
/// Surrounding whitespace is ignored.
pub open spec fn directive_max_age(p: Seq<char>) -> Option<u64> {
    let t = trim_ws(p);
    if starts_with(t, max_age_prefix()) && parse_u64(t.skip(8)) is Some {
        parse_u64(t.skip(8))
    } else if t == no_store() || t == no_cache() {
        Some(0)
    } else {
        None
    }
}

/// The first directive that decides, or `default` when none does.
pub open spec fn max_age_of_directives(ps: Seq<Seq<char>>, default: u64) -> u64
    decreases ps.len(),
{
    if ps.len() == 0 {
        default
    } else {
        match directive_max_age(ps[0]) {
            Some(secs) => secs,
            None => max_age_of_directives(ps.drop_first(), default),
        }
    }
}

/// The freshness lifetime a `Cache-Control` header grants; its directives
/// are separated by commas.
pub open spec fn spec_max_age(cache_control: Option<Seq<char>>, default: u64) -> u64 {
    match cache_control {
        None => default,
        Some(cc) => max_age_of_directives(split_on(cc, ','), default),
    }
}

/// Parse `max-age` out of a Cache-Control header.
///
/// Objects without one get a conservative default rather than being cached
/// forever. Guessing long is how a stale asset survives a deploy.
pub fn parse_max_age(cache_control: Option<&str>, default_secs: u64) -> (r: u64)
    ensures
        r == spec_max_age(opt_str_view(cache_control), default_secs),
{
    let cc = match cache_control {
        None => return default_secs,
        Some(cc) => cc,
    };
    let v = chars_of(cc);
    let parts = split_ranges(&v, ',');
    let prefix = vec!['m', 'a', 'x', '-', 'a', 'g', 'e', '='];
    let store = vec!['n', 'o', '-', 's', 't', 'o', 'r', 'e'];
    let cache = vec!['n', 'o', '-', 'c', 'a', 'c', 'h', 'e'];
    let ghost ps = split_on(v@, ',');
    assert(prefix@ == max_age_prefix());
    assert(store@ == no_store());
    assert(cache@ == no_cache());
    assert(ps.skip(0) =~= ps);
    let mut j: usize = 0;
    while j < parts.len()
        invariant
            j <= parts@.len() == ps.len(),
            ps == split_on(v@, ','),
            spec_max_age(opt_str_view(cache_control), default_secs) == max_age_of_directives(
                ps,
                default_secs,
            ),
            prefix@ == max_age_prefix(),
            store@ == no_store(),
            cache@ == no_cache(),
            forall|k: int| 0 <= k < parts@.len() ==> (#[trigger] parts@[k]).0 <= parts@[k].1 <= v@.len(),
            forall|k: int|
                0 <= k < parts@.len() ==> #[trigger] ps[k] == v@.subrange(
                    parts@[k].0 as int,
                    parts@[k].1 as int,
                ),
            max_age_of_directives(ps, default_secs) == max_age_of_directives(
                ps.skip(j as int),
                default_secs,
            ),
        decreases parts@.len() - j,
    {
        let (a, b) = parts[j];
        assert(ps[j as int] == v@.subrange(a as int, b as int));
        let (lo, hi) = trim_range(&v, a, b);
        let ghost t = v@.subrange(lo as int, hi as int);
        assert(t == trim_ws(ps[j as int]));
        assert(ps.skip(j as int)[0] == ps[j as int]);
        if range_starts_with(&v, lo, hi, &prefix) {
            assert(t.skip(8) =~= v@.subrange(lo + 8, hi as int));
            if let Some(secs) = parse_u64_range(&v, lo + 8, hi) {
                return secs;
            }
        }
        if range_equals(&v, lo, hi, &store) || range_equals(&v, lo, hi, &cache) {
            return 0;
        }
        assert(ps.skip(j as int).drop_first() =~= ps.skip(j + 1 as int));
        j = j + 1;
    }
    default_secs
}

/// The entry when the origin answers 304 Not Modified to a request that
/// carried the stale entry's tag: the same body and tag, a new expiry, and
/// nothing transferred.
pub fn not_modified_response(stale: &Entry, cache_control: Option<&str>, now: u64) -> (r:
    OriginResponse)
    requires
        now + spec_max_age(opt_str_view(cache_control), DEFAULT_MAX_AGE_SECS) <= u64::MAX,
    ensures
        r.entry@ == (EntryView {
            body: stale.body@,
            etag: stale.etag@,
            expires_at: (now + spec_max_age(opt_str_view(cache_control), DEFAULT_MAX_AGE_SECS)) as u64,
        }),
        r.bytes_from_origin == 0,
{
    let max_age = parse_max_age(cache_control, DEFAULT_MAX_AGE_SECS);
    let body = stale.body.clone();
    proof {
        assert forall|i: int| 0 <= i < body@.len() implies body@[i] == stale.body@[i] by {
            assert(cloned::<u8>(stale.body[i], body[i]));
        }
        assert(body@ =~= stale.body@);
    }
    OriginResponse {
        entry: Entry { body, etag: stale.etag.clone(), expires_at: now + max_age },
        bytes_from_origin: 0,
    }
}

/// The entry built from a full response: its body, its `ETag` (empty when it
/// sent none), an expiry from its `Cache-Control`, and the body's length as
/// the bytes transferred.
pub fn full_response(body: Vec<u8>, etag: Option<&str>, cache_control: Option<&str>, now: u64) -> (r:
    OriginResponse)
    requires
        now + spec_max_age(opt_str_view(cache_control), DEFAULT_MAX_AGE_SECS) <= u64::MAX,
    ensures
        r.entry@ == (EntryView {
            body: body@,
            etag: match etag {
                Some(e) => e@,
                None => Seq::<char>::empty(),
            },
            expires_at: (now + spec_max_age(opt_str_view(cache_control), DEFAULT_MAX_AGE_SECS)) as u64,
        }),
        r.bytes_from_origin == body@.len(),
{
    let max_age = parse_max_age(cache_control, DEFAULT_MAX_AGE_SECS);
    let tag = match etag {
        Some(e) => e.to_owned(),
        None => String::new(),
    };
    let len = body.len();
    OriginResponse { entry: Entry { body, etag: tag, expires_at: now + max_age }, bytes_from_origin: len }
}

/// `no-store` and `no-cache` forbid reuse: a header whose first directive is
/// one of them grants no freshness at all.
pub proof fn law_no_store_is_zero(cc: Seq<char>, default: u64)
    requires
        trim_ws(split_on(cc, ',')[0]) == no_store() || trim_ws(split_on(cc, ',')[0]) == no_cache(),
    ensures
        spec_max_age(Some(cc), default) == 0,
{
    let t = trim_ws(split_on(cc, ',')[0]);
    if starts_with(t, max_age_prefix()) {
        assert(t.take(8)[2] == max_age_prefix()[2]);
    }
    assert(split_on(cc, ',').len() > 0) by {
        lemma_split_on_nonempty(cc, ',');
    }
}

/// A directive that decides nothing: after trimming it is neither
/// `no-store`, `no-cache`, nor `max-age=` followed by a valid count.
pub open spec fn directive_is_inert(p: Seq<char>) -> bool {
    let t = trim_ws(p);
    &&& t != seq!['n', 'o', '-', 's', 't', 'o', 'r', 'e']
    &&& t != seq!['n', 'o', '-', 'c', 'a', 'c', 'h', 'e']
    &&& !(t.len() >= 8 && t.take(8) == seq!['m', 'a', 'x', '-', 'a', 'g', 'e', '=']
        && parse_u64(t.skip(8)) is Some)
}

proof fn lemma_inert_is_none(p: Seq<char>)
    ensures
        directive_is_inert(p) <==> directive_max_age(p) is None,
{
    let t = trim_ws(p);
    assert(max_age_prefix() =~= seq!['m', 'a', 'x', '-', 'a', 'g', 'e', '=']);
    assert(no_store() =~= seq!['n', 'o', '-', 's', 't', 'o', 'r', 'e']);
    assert(no_cache() =~= seq!['n', 'o', '-', 'c', 'a', 'c', 'h', 'e']);
}

proof fn lemma_skip_inert(ps: Seq<Seq<char>>, d: u64, j: int)
    requires
        0 <= j <= ps.len(),
        forall|i: int| 0 <= i < j ==> directive_is_inert(#[trigger] ps[i]),
    ensures
        max_age_of_directives(ps, d) == max_age_of_directives(ps.skip(j), d),
    decreases j,
{
    if j == 0 {
        assert(ps.skip(0) =~= ps);
    } else {
        lemma_inert_is_none(ps[0]);
        assert forall|i: int| 0 <= i < j - 1 implies directive_is_inert(
            #[trigger] ps.drop_first()[i],
        ) by {
            assert(ps.drop_first()[i] == ps[i + 1]);
        }
        lemma_skip_inert(ps.drop_first(), d, j - 1);
        assert(ps.drop_first().skip(j - 1) =~= ps.skip(j));
    }
}

/// The first directive that decides, in any position, gives the lifetime:
/// `no-store` or `no-cache` give 0, `max-age=N` gives N; with no deciding
/// directive at all the default stands.
pub proof fn law_first_deciding_directive(cc: Seq<char>, default: u64, j: int)
    requires
        0 <= j <= split_on(cc, ',').len(),
        forall|i: int| 0 <= i < j ==> directive_is_inert(#[trigger] split_on(cc, ',')[i]),
    ensures
        j < split_on(cc, ',').len() ==> {
            let t = trim_ws(split_on(cc, ',')[j]);
            &&& (t == seq!['n', 'o', '-', 's', 't', 'o', 'r', 'e'] || t == seq![
                'n',
                'o',
                '-',
                'c',
                'a',
                'c',
                'h',
                'e',
            ]) ==> spec_max_age(Some(cc), default) == 0
            &&& (t.len() >= 8 && t.take(8) == seq!['m', 'a', 'x', '-', 'a', 'g', 'e', '=']
                && parse_u64(t.skip(8)) is Some) ==> spec_max_age(Some(cc), default) == parse_u64(
                t.skip(8),
            ).unwrap()
        },
        j == split_on(cc, ',').len() ==> spec_max_age(Some(cc), default) == default,
{
    let ps = split_on(cc, ',');
    lemma_skip_inert(ps, default, j);
    assert(max_age_prefix() =~= seq!['m', 'a', 'x', '-', 'a', 'g', 'e', '=']);
    assert(no_store() =~= seq!['n', 'o', '-', 's', 't', 'o', 'r', 'e']);
    assert(no_cache() =~= seq!['n', 'o', '-', 'c', 'a', 'c', 'h', 'e']);
    if j < ps.len() {
        assert(ps.skip(j)[0] == ps[j]);
        let t = trim_ws(ps[j]);
        if t == no_store() || t == no_cache() {
            if starts_with(t, max_age_prefix()) {
                assert(t.take(8)[2] == max_age_prefix()[2]);
            }
        }
    } else {
        assert(ps.skip(j).len() == 0);
    }
}

} // verus!
