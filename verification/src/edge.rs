//! What the edge decides about a request before it touches the cache: the
//! cache key, whether the request may be cached at all, and admission.
use vstd::prelude::*;
use vstd::string::*;
use std::collections::BTreeMap;
use crate::text::{
    chars_of, split_ranges, split_on, range_starts_with, range_equals, find_char, index_of,
    starts_with, lex_lt, lex_order, LexOrder, lemma_lex_irreflexive, lemma_lex_asymmetric,
    lemma_lex_transitive, has_substring, contains_seq, occurs_at,
};
use crate::origin::opt_str_view;

verus! {

/// Query parameters as key and value pairs.
pub type Params = Seq<(Seq<char>, Seq<char>)>;

/// `str::split_once('=')`: the text before the first `=` and after it, or
/// the whole text and an empty value where there is none.
pub open spec fn pair_of(p: Seq<char>) -> (Seq<char>, Seq<char>) {
    let e = index_of(p, '=');
    if e < 0 {
        (p, Seq::<char>::empty())
    } else {
        (p.take(e), p.skip(e + 1))
    }
}

pub open spec fn utm_prefix() -> Seq<char> {
    seq!['u', 't', 'm', '_']
}

pub open spec fn fbclid() -> Seq<char> {
    seq!['f', 'b', 'c', 'l', 'i', 'd']
}

pub open spec fn gclid() -> Seq<char> {
    seq!['g', 'c', 'l', 'i', 'd']
}

/// Tracking parameters change per visitor and never change the response
/// body.
pub open spec fn is_tracking_param(k: Seq<char>) -> bool {
    starts_with(k, utm_prefix()) || k == fbclid() || k == gclid()
}

/// The parameters that take part in the key, in query order: empty pieces
/// and tracking parameters are dropped.
pub open spec fn kept_params(pieces: Seq<Seq<char>>) -> Params
    decreases pieces.len(),
{
    if pieces.len() == 0 {
        Seq::empty()
    } else {
        let rest = kept_params(pieces.drop_last());
        let p = pieces.last();
        if p.len() == 0 || is_tracking_param(pair_of(p).0) {
            rest
        } else {
            rest.push(pair_of(p))
        }
    }
}

/// Parameters as a map; a key given twice keeps its last value.
pub open spec fn param_map(ps: Params) -> Map<Seq<char>, Seq<char>>
    decreases ps.len(),
{
    if ps.len() == 0 {
        Map::empty()
    } else {
        param_map(ps.drop_last()).insert(ps.last().0, ps.last().1)
    }
}

/// Keys strictly increase.
pub open spec fn strictly_sorted(l: Params) -> bool {
    forall|i: int, j: int| 0 <= i < j < l.len() ==> lex_lt(#[trigger] l[i].0, #[trigger] l[j].0)
}

/// `l` lists exactly the entries of `m`, in increasing key order.
pub open spec fn listing_ok(l: Params, m: Map<Seq<char>, Seq<char>>) -> bool {
    &&& strictly_sorted(l)
    &&& forall|i: int| 0 <= i < l.len() ==> m.contains_key(#[trigger] l[i].0) && m[l[i].0] == l[i].1
    &&& forall|k: Seq<char>| #[trigger] m.contains_key(k) ==> exists|i: int| 0 <= i < l.len() && #[trigger] l[i].0 == k
}

/// The entries of `m` in increasing key order.
pub open spec fn sorted_listing(m: Map<Seq<char>, Seq<char>>) -> Params {
    choose|l: Params| listing_ok(l, m)
}

/// The parameters of a query as the key spells them: tracking parameters
/// dropped, the last value of a repeated key, sorted by key.
pub open spec fn normalized_params(query: Seq<char>) -> Params {
    sorted_listing(param_map(kept_params(split_on(query, '&'))))
}

pub open spec fn param_text(p: (Seq<char>, Seq<char>)) -> Seq<char> {
    p.0 + seq!['='] + p.1
}

/// `k=v` pairs joined by `&`.
pub open spec fn join_params(l: Params) -> Seq<char>
    decreases l.len(),
{
    if l.len() == 0 {
        Seq::empty()
    } else if l.len() == 1 {
        param_text(l[0])
    } else {
        join_params(l.drop_last()) + seq!['&'] + param_text(l.last())
    }
}

pub open spec fn br() -> Seq<char> {
    seq!['b', 'r']
}

pub open spec fn gzip() -> Seq<char> {
    seq!['g', 'z', 'i', 'p']
}

pub open spec fn identity() -> Seq<char> {
    seq!['i', 'd', 'e', 'n', 't', 'i', 't', 'y']
}

/// The encoding class a request accepts: `br` if its Accept-Encoding
/// mentions it, else `gzip` if it mentions that, else `identity`.
pub open spec fn encoding_of(accept_encoding: Option<Seq<char>>) -> Seq<char> {
    match accept_encoding {
        Some(a) => if contains_seq(a, br()) {
            br()
        } else if contains_seq(a, gzip()) {
            gzip()
        } else {
            identity()
        },
        None => identity(),
    }
}

/// `{path}?{sorted params}|enc={encoding}`.
pub open spec fn spec_cache_key(
    path: Seq<char>,
    query: Seq<char>,
    accept_encoding: Option<Seq<char>>,
) -> Seq<char> {
    path + seq!['?'] + join_params(normalized_params(query)) + seq!['|', 'e', 'n', 'c', '=']
        + encoding_of(accept_encoding)
}

/// Key and value ranges of a parameter inside the query's characters.
pub open spec fn param_view(q: Seq<char>, t: (usize, usize, usize, usize)) -> (
    Seq<char>,
    Seq<char>,
) {
    (q.subrange(t.0 as int, t.1 as int), q.subrange(t.2 as int, t.3 as int))
}

pub open spec fn params_view(q: Seq<char>, l: Seq<(usize, usize, usize, usize)>) -> Params {
    l.map_values(|t: (usize, usize, usize, usize)| param_view(q, t))
}

pub open spec fn range_ok(q: Seq<char>, t: (usize, usize, usize, usize)) -> bool {
    t.0 <= t.1 <= q.len() && t.2 <= t.3 <= q.len()
}

pub open spec fn ranges_ok(q: Seq<char>, l: Seq<(usize, usize, usize, usize)>) -> bool {
    forall|i: int| 0 <= i < l.len() ==> range_ok(q, #[trigger] l[i])
}

/// Where the parameter `t` belongs in the sorted list: every earlier key is
/// smaller, and the key there is equal (`found`) or larger.
fn locate(q: &Vec<char>, params: &Vec<(usize, usize, usize, usize)>, t: (usize, usize, usize, usize)) -> (r: (usize, bool))
    requires
        ranges_ok(q@, params@),
        range_ok(q@, t),
    ensures
        r.0 <= params@.len(),
        forall|i: int|
            0 <= i < r.0 ==> lex_lt(
                #[trigger] params_view(q@, params@)[i].0,
                param_view(q@, t).0,
            ),
        r.1 ==> r.0 < params@.len() && params_view(q@, params@)[r.0 as int].0 == param_view(q@, t).0,
        !r.1 && r.0 < params@.len() ==> lex_lt(
            param_view(q@, t).0,
            params_view(q@, params@)[r.0 as int].0,
        ),
{
    let n = params.len();
    let mut p: usize = 0;
    while p < n
        invariant
            n == params@.len(),
            p <= n,
            ranges_ok(q@, params@),
            range_ok(q@, t),
            forall|i: int|
                0 <= i < p ==> lex_lt(
                    #[trigger] params_view(q@, params@)[i].0,
                    param_view(q@, t).0,
                ),
        decreases n - p,
    {
        let e = params[p];
        assert(range_ok(q@, params@[p as int]));
        match lex_order(q, e.0, e.1, t.0, t.1) {
            LexOrder::Less => {
                p = p + 1;
            },
            LexOrder::Equal => {
                return (p, true);
            },
            LexOrder::Greater => {
                return (p, false);
            },
        }
    }
    (p, false)
}

/// Adds the parameter `t` to the sorted list, replacing the value of an
/// equal key.
fn insert_param(
    q: &Vec<char>,
    params: &mut Vec<(usize, usize, usize, usize)>,
    t: (usize, usize, usize, usize),
    Ghost(m): Ghost<Map<Seq<char>, Seq<char>>>,
)
    requires
        ranges_ok(q@, old(params)@),
        range_ok(q@, t),
        listing_ok(params_view(q@, old(params)@), m),
    ensures
        ranges_ok(q@, final(params)@),
        listing_ok(
            params_view(q@, final(params)@),
            m.insert(param_view(q@, t).0, param_view(q@, t).1),
        ),
{
    let ghost l = params_view(q@, params@);
    let ghost k = param_view(q@, t).0;
    let ghost v = param_view(q@, t).1;
    let ghost m2 = m.insert(k, v);
    let (p, found) = locate(q, params, t);
    if found {
        params.set(p, t);
        proof {
            let l2 = params_view(q@, params@);
            assert(l2 =~= l.update(p as int, (k, v)));
            assert forall|i: int| 0 <= i < l2.len() implies m2.contains_key(#[trigger] l2[i].0)
                && m2[l2[i].0] == l2[i].1 by {
                if i != p {
                    assert(l2[i] == l[i]);
                    if i < p {
                        assert(lex_lt(l[i].0, l[p as int].0));
                    } else {
                        assert(lex_lt(l[p as int].0, l[i].0));
                    }
                    lemma_lex_irreflexive(k);
                }
            }
            assert forall|key: Seq<char>| #[trigger] m2.contains_key(key) implies exists|i: int|
                0 <= i < l2.len() && #[trigger] l2[i].0 == key by {
                if key == k {
                    assert(l2[p as int].0 == key);
                } else {
                    assert(m.contains_key(key));
                    let i = choose|i: int| 0 <= i < l.len() && #[trigger] l[i].0 == key;
                    assert(l2[i].0 == key);
                }
            }
            assert(strictly_sorted(l2)) by {
                assert forall|i: int, j: int| 0 <= i < j < l2.len() implies lex_lt(
                    #[trigger] l2[i].0,
                    #[trigger] l2[j].0,
                ) by {
                    assert(l2[i].0 == l[i].0);
                    assert(l2[j].0 == l[j].0);
                    assert(lex_lt(l[i].0, l[j].0));
                }
            }
        }
    } else {
        params.insert(p, t);
        proof {
            let l2 = params_view(q@, params@);
            assert(l2 =~= l.insert(p as int, (k, v)));
            // Every old key lies strictly on one side of the new key.
            assert forall|i: int| 0 <= i < l.len() implies (i < p ==> lex_lt(l[i].0, k)) && (i
                >= p ==> lex_lt(k, l[i].0)) by {
                if i > p {
                    lemma_lex_transitive(k, l[p as int].0, l[i].0);
                }
            }
            assert forall|i: int| 0 <= i < l2.len() implies m2.contains_key(#[trigger] l2[i].0)
                && m2[l2[i].0] == l2[i].1 by {
                if i < p {
                    assert(l2[i] == l[i]);
                    lemma_lex_irreflexive(k);
                } else if i > p {
                    assert(l2[i] == l[i - 1]);
                    lemma_lex_irreflexive(k);
                }
            }
            assert forall|key: Seq<char>| #[trigger] m2.contains_key(key) implies exists|i: int|
                0 <= i < l2.len() && #[trigger] l2[i].0 == key by {
                if key == k {
                    assert(l2[p as int].0 == key);
                } else {
                    assert(m.contains_key(key));
                    let i = choose|i: int| 0 <= i < l.len() && #[trigger] l[i].0 == key;
                    if i < p {
                        assert(l2[i].0 == key);
                    } else {
                        assert(l2[i + 1].0 == key);
                    }
                }
            }
            assert(strictly_sorted(l2)) by {
                assert forall|i: int, j: int| 0 <= i < j < l2.len() implies lex_lt(
                    #[trigger] l2[i].0,
                    #[trigger] l2[j].0,
                ) by {
                    if j < p {
                        assert(lex_lt(l[i].0, l[j].0));
                    } else if j == p {
                        assert(l2[i] == l[i]);
                    } else if i < p {
                        assert(l2[j] == l[j - 1]);
                        assert(l2[i] == l[i]);
                        lemma_lex_transitive(l[i].0, k, l[j - 1].0);
                    } else if i == p {
                        assert(l2[j] == l[j - 1]);
                    } else {
                        assert(l2[j] == l[j - 1]);
                        assert(l2[i] == l[i - 1]);
                        assert(lex_lt(l[i - 1].0, l[j - 1].0));
                    }
                }
            }
        }
    }
    proof {
        assert forall|i: int| 0 <= i < params@.len() implies range_ok(q@, #[trigger] params@[i]) by {
            if found {
                if i != p {
                    assert(params@[i] == old(params)@[i]);
                }
            } else {
                if i < p {
                    assert(params@[i] == old(params)@[i]);
                } else if i > p {
                    assert(params@[i] == old(params)@[i - 1]);
                }
            }
        }
    }
}

/// Two listings of the same map are the same sequence.
proof fn lemma_listing_unique(l1: Params, l2: Params, m: Map<Seq<char>, Seq<char>>)
    requires
        listing_ok(l1, m),
        listing_ok(l2, m),
    ensures
        l1 == l2,
    decreases l1.len(),
{
    if l1.len() == 0 {
        if l2.len() > 0 {
            assert(m.contains_key(l2[0].0));
        }
        assert(l1 =~= l2);
    } else if l2.len() == 0 {
        assert(m.contains_key(l1[0].0));
    } else {
        let n1 = l1.len() - 1;
        let n2 = l2.len() - 1;
        let k1 = l1[n1].0;
        let k2 = l2[n2].0;
        assert(m.contains_key(k1));
        assert(m.contains_key(k2));
        let j = choose|j: int| 0 <= j < l2.len() && #[trigger] l2[j].0 == k1;
        let i = choose|i: int| 0 <= i < l1.len() && #[trigger] l1[i].0 == k2;
        if k1 != k2 {
            assert(j < n2);
            assert(i < n1);
            assert(lex_lt(l2[j].0, l2[n2].0));
            assert(lex_lt(l1[i].0, l1[n1].0));
            lemma_lex_asymmetric(k1, k2);
        }
        let m2 = m.remove(k1);
        let d1 = l1.drop_last();
        let d2 = l2.drop_last();
        assert forall|x: int| 0 <= x < d1.len() implies #[trigger] d1[x].0 != k1 by {
            assert(lex_lt(l1[x].0, l1[n1].0));
            lemma_lex_irreflexive(k1);
        }
        assert forall|x: int| 0 <= x < d2.len() implies #[trigger] d2[x].0 != k1 by {
            assert(lex_lt(l2[x].0, l2[n2].0));
            lemma_lex_irreflexive(k1);
        }
        assert(listing_ok(d1, m2)) by {
            assert forall|x: int| 0 <= x < d1.len() implies m2.contains_key(#[trigger] d1[x].0)
                && m2[d1[x].0] == d1[x].1 by {
                assert(d1[x] == l1[x]);
            }
            assert forall|key: Seq<char>| #[trigger] m2.contains_key(key) implies exists|x: int|
                0 <= x < d1.len() && #[trigger] d1[x].0 == key by {
                let x = choose|x: int| 0 <= x < l1.len() && #[trigger] l1[x].0 == key;
                assert(x != n1);
                assert(d1[x].0 == key);
            }
            assert forall|x: int, y: int| 0 <= x < y < d1.len() implies lex_lt(
                #[trigger] d1[x].0,
                #[trigger] d1[y].0,
            ) by {
                assert(lex_lt(l1[x].0, l1[y].0));
            }
        }
        assert(listing_ok(d2, m2)) by {
            assert forall|x: int| 0 <= x < d2.len() implies m2.contains_key(#[trigger] d2[x].0)
                && m2[d2[x].0] == d2[x].1 by {
                assert(d2[x] == l2[x]);
            }
            assert forall|key: Seq<char>| #[trigger] m2.contains_key(key) implies exists|x: int|
                0 <= x < d2.len() && #[trigger] d2[x].0 == key by {
                let x = choose|x: int| 0 <= x < l2.len() && #[trigger] l2[x].0 == key;
                assert(x != n2);
                assert(d2[x].0 == key);
            }
            assert forall|x: int, y: int| 0 <= x < y < d2.len() implies lex_lt(
                #[trigger] d2[x].0,
                #[trigger] d2[y].0,
            ) by {
                assert(lex_lt(l2[x].0, l2[y].0));
            }
        }
        lemma_listing_unique(d1, d2, m2);
        assert(l1[n1] == l2[n2]);
        assert(l1 =~= d1.push(l1[n1]));
        assert(l2 =~= d2.push(l2[n2]));
    }
}

/// Build the cache key for a request.
///
/// The cache key decides correctness before it decides performance. Too
/// coarse and one user's response is served to another; too fine and no two
/// requests ever share a key. Query parameters are sorted (`?a=1&b=2` and
/// `?b=2&a=1` are the same resource), tracking parameters are dropped, and
/// the accepted encoding is part of the key.
pub fn cache_key(path: &str, query: &str, accept_encoding: Option<&str>) -> (r: String)
    ensures
        r@ == spec_cache_key(path@, query@, opt_str_view(accept_encoding)),
{
    let q = chars_of(query);
    let pieces = split_ranges(&q, '&');
    let ghost ps = split_on(q@, '&');
    let utm = vec!['u', 't', 'm', '_'];
    let fb = vec!['f', 'b', 'c', 'l', 'i', 'd'];
    let gc = vec!['g', 'c', 'l', 'i', 'd'];
    let mut params: Vec<(usize, usize, usize, usize)> = Vec::new();
    proof {
        assert(ps.take(0) =~= Seq::<Seq<char>>::empty());
        assert(params_view(q@, params@) =~= Params::empty());
    }
    let mut j: usize = 0;
    while j < pieces.len()
        invariant
            j <= pieces@.len() == ps.len(),
            ps == split_on(q@, '&'),
            utm@ == utm_prefix(),
            fb@ == fbclid(),
            gc@ == gclid(),
            forall|k: int| 0 <= k < pieces@.len() ==> (#[trigger] pieces@[k]).0 <= pieces@[k].1 <= q@.len(),
            forall|k: int|
                0 <= k < pieces@.len() ==> #[trigger] ps[k] == q@.subrange(
                    pieces@[k].0 as int,
                    pieces@[k].1 as int,
                ),
            ranges_ok(q@, params@),
            listing_ok(params_view(q@, params@), param_map(kept_params(ps.take(j as int)))),
        decreases pieces@.len() - j,
    {
        let (a, b) = pieces[j];
        let ghost p = ps[j as int];
        let ghost before = param_map(kept_params(ps.take(j as int)));
        proof {
            assert(ps.take(j + 1 as int).drop_last() =~= ps.take(j as int));
            assert(ps.take(j + 1 as int).last() == p);
            assert(p == q@.subrange(a as int, b as int));
        }
        if a < b {
            let (ks, ke, vs, ve) = match find_char(&q, a, b, '=') {
                Some(e) => (a, e, e + 1, b),
                None => (a, b, b, b),
            };
            proof {
                let e = index_of(p, '=');
                if e >= 0 {
                    assert(p.take(e) =~= q@.subrange(ks as int, ke as int));
                    assert(p.skip(e + 1) =~= q@.subrange(vs as int, ve as int));
                } else {
                    assert(p =~= q@.subrange(ks as int, ke as int));
                    assert(q@.subrange(vs as int, ve as int) =~= Seq::<char>::empty());
                }
                assert(pair_of(p) == param_view(q@, (ks, ke, vs, ve)));
            }
            let tracking = range_starts_with(&q, ks, ke, &utm) || range_equals(&q, ks, ke, &fb)
                || range_equals(&q, ks, ke, &gc);
            let ghost kept = kept_params(ps.take(j as int));
            assert(tracking == is_tracking_param(pair_of(p).0));
            if !tracking {
                insert_param(&q, &mut params, (ks, ke, vs, ve), Ghost(before));
                assert(kept_params(ps.take(j + 1 as int)) == kept.push(pair_of(p)));
                assert(kept.push(pair_of(p)).drop_last() =~= kept);
            } else {
                assert(kept_params(ps.take(j + 1 as int)) == kept);
            }
        } else {
            assert(kept_params(ps.take(j + 1 as int)) == kept_params(ps.take(j as int)));
        }
        j = j + 1;
    }
    proof {
        assert(ps.take(pieces@.len() as int) =~= ps);
    }
    let ghost pv = params_view(q@, params@);
    let ghost m = param_map(kept_params(ps));
    proof {
        lemma_listing_unique(pv, sorted_listing(m), m);
        assert(pv == normalized_params(query@));
    }
    let mut out = String::new();
    out.append(path);
    out.append("?");
    proof {
        reveal_strlit("?");
        reveal_strlit("&");
        reveal_strlit("=");
        assert("?"@ =~= seq!['?']);
        assert("&"@ =~= seq!['&']);
        assert("="@ =~= seq!['=']);
        assert(pv.take(0) =~= Params::empty());
    }
    let n = params.len();
    let mut i: usize = 0;
    while i < n
        invariant
            n == params@.len(),
            i <= n,
            query@ == q@,
            pv == params_view(q@, params@),
            ranges_ok(q@, params@),
            "&"@ == seq!['&'],
            "="@ == seq!['='],
            out@ == path@ + seq!['?'] + join_params(pv.take(i as int)),
        decreases n - i,
    {
        let (ks, ke, vs, ve) = params[i];
        assert(range_ok(q@, params@[i as int]));
        let ghost prev = out@;
        if i > 0 {
            out.append("&");
        }
        out.append(query.substring_char(ks, ke));
        out.append("=");
        out.append(query.substring_char(vs, ve));
        proof {
            let t = pv.take(i + 1 as int);
            assert(t.drop_last() =~= pv.take(i as int));
            assert(t.last() == pv[i as int]);
            assert(pv[i as int] == param_view(q@, params@[i as int]));
            if i == 0 {
                assert(t.len() == 1);
                assert(out@ =~= prev + param_text(pv[i as int]));
                assert(pv.take(0) =~= Params::empty());
                assert(prev =~= path@ + seq!['?']);
            } else {
                assert(out@ =~= prev + seq!['&'] + param_text(pv[i as int]));
            }
        }
        i = i + 1;
    }
    proof {
        assert(pv.take(n as int) =~= pv);
    }
    // Encoding belongs in the key: a gzip body served to a client that did
    // not ask for gzip is a broken response, not a slow one.
    let enc: &str = match accept_encoding {
        Some(a) => {
            let av = chars_of(a);
            if has_substring(&av, &vec!['b', 'r']) {
                "br"
            } else if has_substring(&av, &vec!['g', 'z', 'i', 'p']) {
                "gzip"
            } else {
                "identity"
            }
        },
        None => "identity",
    };
    proof {
        reveal_strlit("br");
        reveal_strlit("gzip");
        reveal_strlit("identity");
        reveal_strlit("|enc=");
        assert("br"@ =~= br());
        assert("gzip"@ =~= gzip());
        assert("identity"@ =~= identity());
        assert("|enc="@ =~= seq!['|', 'e', 'n', 'c', '=']);
    }
    assert(enc@ == encoding_of(opt_str_view(accept_encoding)));
    out.append("|enc=");
    out.append(enc);
    out
}

/// Splitting text that holds no separator gives the text itself.
proof fn lemma_split_without_sep(s: Seq<char>, sep: char)
    requires
        !s.contains(sep),
    ensures
        split_on(s, sep) == seq![s],
    decreases s.len(),
{
    if s.len() == 0 {
        assert(s =~= Seq::<char>::empty());
        assert(split_on(s, sep) =~= seq![s]);
    } else {
        let d = s.drop_last();
        assert(!d.contains(sep)) by {
            if d.contains(sep) {
                let i = choose|i: int| 0 <= i < d.len() && d[i] == sep;
                assert(s[i] == sep);
            }
        }
        assert(s[s.len() - 1] != sep);
        lemma_split_without_sep(d, sep);
        assert(d.push(s.last()) =~= s);
        assert(s.last() != sep);
        let p = split_on(d, sep);
        assert(p.len() == 1 && p.last() == d);
        assert(split_on(s, sep) == p.update(0, d.push(s.last())));
        assert(p.update(0, d.push(s.last())) =~= seq![s]);
    }
}

/// Appending a separator and a separator-free piece appends one piece.
proof fn lemma_split_append(x: Seq<char>, sep: char, y: Seq<char>)
    requires
        !y.contains(sep),
    ensures
        split_on(x + seq![sep] + y, sep) == split_on(x, sep).push(y),
    decreases y.len(),
{
    let z = x + seq![sep] + y;
    if y.len() == 0 {
        assert(y =~= Seq::<char>::empty());
        assert(z =~= x.push(sep));
        assert(z.drop_last() =~= x);
        assert(split_on(z, sep) =~= split_on(x, sep).push(y));
    } else {
        let d = y.drop_last();
        assert(!d.contains(sep)) by {
            if d.contains(sep) {
                let i = choose|i: int| 0 <= i < d.len() && d[i] == sep;
                assert(y[i] == sep);
            }
        }
        assert(y[y.len() - 1] != sep);
        lemma_split_append(x, sep, d);
        assert(z.drop_last() =~= x + seq![sep] + d);
        assert(z.last() == y.last());
        assert(d.push(y.last()) =~= y);
        assert(z.last() != sep);
        let p = split_on(x, sep).push(d);
        assert(split_on(z, sep) == p.update(p.len() - 1, p.last().push(z.last())));
        assert(p.update(p.len() - 1, p.last().push(z.last())) =~= split_on(x, sep).push(y));
    }
}

/// Tracking parameters never reach the key: appending one to a query
/// leaves the key as it was.
pub proof fn law_tracking_param_ignored(
    path: Seq<char>,
    query: Seq<char>,
    t: Seq<char>,
    accept_encoding: Option<Seq<char>>,
)
    requires
        !t.contains('&'),
        is_tracking_param(pair_of(t).0),
    ensures
        spec_cache_key(path, query + seq!['&'] + t, accept_encoding) == spec_cache_key(
            path,
            query,
            accept_encoding,
        ),
{
    lemma_split_append(query, '&', t);
    let ps = split_on(query, '&');
    assert(ps.push(t).drop_last() =~= ps);
    assert(kept_params(ps.push(t)) == kept_params(ps));
}

/// Parameter order does not matter: `x&y` and `y&x` give the same key when
/// the two parameters have different keys.
pub proof fn law_param_order_irrelevant(
    path: Seq<char>,
    x: Seq<char>,
    y: Seq<char>,
    accept_encoding: Option<Seq<char>>,
)
    requires
        !x.contains('&'),
        !y.contains('&'),
        pair_of(x).0 != pair_of(y).0,
    ensures
        spec_cache_key(path, x + seq!['&'] + y, accept_encoding) == spec_cache_key(
            path,
            y + seq!['&'] + x,
            accept_encoding,
        ),
{
    lemma_split_without_sep(x, '&');
    lemma_split_without_sep(y, '&');
    lemma_split_append(x, '&', y);
    lemma_split_append(y, '&', x);
    let pxy = seq![x].push(y);
    let pyx = seq![y].push(x);
    assert(pxy.drop_last() =~= seq![x]);
    assert(pyx.drop_last() =~= seq![y]);
    assert(seq![x].drop_last() =~= Seq::<Seq<char>>::empty());
    assert(seq![y].drop_last() =~= Seq::<Seq<char>>::empty());
    assert(seq![x].last() == x);
    assert(seq![y].last() == y);
    assert(pxy.last() == y);
    assert(pyx.last() == x);
    assert(kept_params(Seq::<Seq<char>>::empty()) == Params::empty());
    let kx = kept_params(seq![x]);
    let ky = kept_params(seq![y]);
    let e = Params::empty();
    let mx = param_map(kept_params(pxy));
    let my = param_map(kept_params(pyx));
    // Each piece contributes at most its own pair.
    let keep_x = !(x.len() == 0 || is_tracking_param(pair_of(x).0));
    let keep_y = !(y.len() == 0 || is_tracking_param(pair_of(y).0));
    assert(kx == (if keep_x { e.push(pair_of(x)) } else { e }));
    assert(ky == (if keep_y { e.push(pair_of(y)) } else { e }));
    assert(e.push(pair_of(x)).drop_last() =~= e);
    assert(e.push(pair_of(y)).drop_last() =~= e);
    assert(kx.push(pair_of(y)).drop_last() =~= kx);
    assert(ky.push(pair_of(x)).drop_last() =~= ky);
    assert(e.push(pair_of(x)).push(pair_of(y)).drop_last() =~= e.push(pair_of(x)));
    assert(e.push(pair_of(y)).push(pair_of(x)).drop_last() =~= e.push(pair_of(y)));
    lemma_param_map_push(e, pair_of(x));
    lemma_param_map_push(e, pair_of(y));
    lemma_param_map_push(kx, pair_of(y));
    lemma_param_map_push(ky, pair_of(x));
    assert(param_map(e) == Map::<Seq<char>, Seq<char>>::empty());
    assert(mx =~= my);
}

proof fn lemma_param_map_push(ps: Params, a: (Seq<char>, Seq<char>))
    ensures
        param_map(ps.push(a)) == param_map(ps).insert(a.0, a.1),
{
    assert(ps.push(a).drop_last() =~= ps);
    assert(ps.push(a).last() == a);
}

/// The accepted encoding is part of the key: requests that accept
/// different encodings never share one.
pub proof fn law_encoding_separates(
    path: Seq<char>,
    query: Seq<char>,
    a1: Option<Seq<char>>,
    a2: Option<Seq<char>>,
)
    requires
        encoding_of(a1) != encoding_of(a2),
    ensures
        spec_cache_key(path, query, a1) != spec_cache_key(path, query, a2),
{
    let pre = path + seq!['?'] + join_params(normalized_params(query)) + seq![
        '|',
        'e',
        'n',
        'c',
        '=',
    ];
    let k1 = spec_cache_key(path, query, a1);
    let k2 = spec_cache_key(path, query, a2);
    assert(k1 =~= pre + encoding_of(a1));
    assert(k2 =~= pre + encoding_of(a2));
    if k1 == k2 {
        assert(k1.skip(pre.len() as int) =~= encoding_of(a1));
        assert(k2.skip(pre.len() as int) =~= encoding_of(a2));
    }
}

/// The key ends with the encoding class the request accepts: `br` when
/// Accept-Encoding mentions `br` anywhere; otherwise `gzip` when it mentions
/// `gzip` anywhere; otherwise `identity`, as also without the header.
pub proof fn law_encoding_class(path: Seq<char>, query: Seq<char>, a: Seq<char>)
    ensures
        (exists|i: int| 0 <= i && i + 2 <= a.len() && #[trigger] a.subrange(i, i + 2) == seq!['b', 'r'])
            ==> spec_cache_key(path, query, Some(a)).skip(
            spec_cache_key(path, query, Some(a)).len() - 7,
        ) == seq!['|', 'e', 'n', 'c', '=', 'b', 'r'],
        ((forall|i: int|
            0 <= i && i + 2 <= a.len() ==> #[trigger] a.subrange(i, i + 2) != seq!['b', 'r'])
            && (exists|i: int|
            0 <= i && i + 4 <= a.len() && #[trigger] a.subrange(i, i + 4) == seq!['g', 'z', 'i', 'p']))
            ==> spec_cache_key(path, query, Some(a)).skip(
            spec_cache_key(path, query, Some(a)).len() - 9,
        ) == seq!['|', 'e', 'n', 'c', '=', 'g', 'z', 'i', 'p'],
        ((forall|i: int|
            0 <= i && i + 2 <= a.len() ==> #[trigger] a.subrange(i, i + 2) != seq!['b', 'r'])
            && (forall|i: int|
            0 <= i && i + 4 <= a.len() ==> #[trigger] a.subrange(i, i + 4) != seq![
                'g',
                'z',
                'i',
                'p',
            ])) ==> spec_cache_key(path, query, Some(a)).skip(
            spec_cache_key(path, query, Some(a)).len() - 13,
        ) == seq!['|', 'e', 'n', 'c', '=', 'i', 'd', 'e', 'n', 't', 'i', 't', 'y'],
        spec_cache_key(path, query, None).skip(spec_cache_key(path, query, None).len() - 13)
            == seq!['|', 'e', 'n', 'c', '=', 'i', 'd', 'e', 'n', 't', 'i', 't', 'y'],
{
    let pre = path + seq!['?'] + join_params(normalized_params(query));
    let tag = seq!['|', 'e', 'n', 'c', '='];
    let has_br = exists|i: int| 0 <= i && i + 2 <= a.len() && #[trigger] a.subrange(i, i + 2) == seq!['b', 'r'];
    let has_gz = exists|i: int| 0 <= i && i + 4 <= a.len() && #[trigger] a.subrange(i, i + 4) == seq!['g', 'z', 'i', 'p'];
    assert(br() =~= seq!['b', 'r']);
    assert(gzip() =~= seq!['g', 'z', 'i', 'p']);
    if has_br {
        let i = choose|i: int| 0 <= i && i + 2 <= a.len() && #[trigger] a.subrange(i, i + 2) == seq!['b', 'r'];
        assert(occurs_at(a, br(), i));
    } else if contains_seq(a, br()) {
        let i = choose|i: int| occurs_at(a, br(), i);
        assert(a.subrange(i, i + 2) == seq!['b', 'r']);
    }
    if has_gz {
        let i = choose|i: int| 0 <= i && i + 4 <= a.len() && #[trigger] a.subrange(i, i + 4) == seq!['g', 'z', 'i', 'p'];
        assert(occurs_at(a, gzip(), i));
    } else if contains_seq(a, gzip()) {
        let i = choose|i: int| occurs_at(a, gzip(), i);
        assert(a.subrange(i, i + 4) == seq!['g', 'z', 'i', 'p']);
    }
    let k = spec_cache_key(path, query, Some(a));
    assert(k =~= pre + tag + encoding_of(Some(a)));
    let e = encoding_of(Some(a));
    assert(k.skip(k.len() - (tag.len() + e.len())) =~= tag + e);
    let kn = spec_cache_key(path, query, None);
    assert(kn =~= pre + tag + identity());
    assert(kn.skip(kn.len() - 13) =~= tag + identity());
}

pub open spec fn get_method() -> Seq<char> {
    seq!['G', 'E', 'T']
}

pub open spec fn head_method() -> Seq<char> {
    seq!['H', 'E', 'A', 'D']
}

pub open spec fn authorization() -> Seq<char> {
    seq!['a', 'u', 't', 'h', 'o', 'r', 'i', 'z', 'a', 't', 'i', 'o', 'n']
}

pub open spec fn cookie() -> Seq<char> {
    seq!['c', 'o', 'o', 'k', 'i', 'e']
}

/// Some key of `headers` spells `name`.
pub open spec fn has_header(headers: Map<String, String>, name: Seq<char>) -> bool {
    exists|k: String| #[trigger] headers.contains_key(k) && k@ == name
}

/// `BTreeMap::contains_key` for a `String`-keyed map looked up by `&str`.
/// Claims that the answer is whether some key has the same characters as
/// `name`, which is what `String`'s total order makes the lookup find.
#[verifier::external_body]
fn header_present(headers: &BTreeMap<String, String>, name: &str) -> (r: bool)
    ensures
        r == has_header(headers@, name@),
{
    headers.contains_key(name)
}

/// Decide whether a request may be served from cache at all: only `GET` and
/// `HEAD`, and never a request that carries credentials.
///
/// An authenticated request may return user-specific content. Caching it
/// risks serving one user's data to another, which is the one failure a
/// cache must never have.
pub fn is_cacheable_request(method: &str, headers: &BTreeMap<String, String>) -> (r: bool)
    ensures
        r == ((method@ == get_method() || method@ == head_method()) && !has_header(
            headers@,
            authorization(),
        ) && !has_header(headers@, cookie())),
{
    let m = chars_of(method);
    let n = m.len();
    let is_get = range_equals(&m, 0, n, &vec!['G', 'E', 'T']);
    let is_head = range_equals(&m, 0, n, &vec!['H', 'E', 'A', 'D']);
    assert(m@.subrange(0, n as int) =~= m@);
    if !is_get && !is_head {
        return false;
    }
    proof {
        reveal_strlit("authorization");
        reveal_strlit("cookie");
        assert("authorization"@ =~= authorization());
        assert("cookie"@ =~= cookie());
    }
    if header_present(headers, "authorization") || header_present(headers, "cookie") {
        return false;
    }
    true
}

/// A bounded concurrency gate.
///
/// Without a limit, an overloaded node accepts every connection and slows
/// down for everyone. With one, it stays fast for the requests it accepts and
/// signals the steering layer to send work elsewhere.
pub struct ConcurrencyGate {
    limit: u64,
    in_flight: u64,
}

/// The count after one request leaves: one less, wrapping below zero as an
/// atomic `fetch_sub` does.
pub open spec fn count_after_leave(n: u64) -> u64 {
    if n == 0 {
        u64::MAX
    } else {
        (n - 1) as u64
    }
}

impl ConcurrencyGate {
    pub closed spec fn max_in_flight(&self) -> u64 {
        self.limit
    }

    pub closed spec fn active(&self) -> u64 {
        self.in_flight
    }

    pub fn new(limit: u64) -> (r: Self)
        ensures
            r.max_in_flight() == limit,
            r.active() == 0,
    {
        ConcurrencyGate { limit, in_flight: 0 }
    }

    /// Let one more request in unless the limit is reached.
    pub fn try_enter(&mut self) -> (r: bool)
        ensures
            r == (old(self).active() < old(self).max_in_flight()),
            final(self).max_in_flight() == old(self).max_in_flight(),
            final(self).active() == (if r {
                (old(self).active() + 1) as u64
            } else {
                old(self).active()
            }),
    {
        let current = self.in_flight;
        if current >= self.limit {
            return false;
        }
        self.in_flight = current + 1;
        true
    }

    /// A request that was let in has finished.
    pub fn leave(&mut self)
        ensures
            final(self).max_in_flight() == old(self).max_in_flight(),
            final(self).active() == count_after_leave(old(self).active()),
    {
        self.in_flight = self.in_flight.wrapping_sub(1);
    }

    /// The requests let in and not yet finished.
    pub fn in_flight(&self) -> (r: u64)
        ensures
            r == self.active(),
    {
        self.in_flight
    }

    /// The configured limit.
    pub fn limit(&self) -> (r: u64)
        ensures
            r == self.max_in_flight(),
    {
        self.limit
    }
}

/// Entering and then leaving restores the count.
pub proof fn law_enter_then_leave(active: u64, limit: u64)
    requires
        active < limit,
    ensures
        count_after_leave((active + 1) as u64) == active,
{
}

/// Entering never goes past the limit: starting at or under it,
/// any number of `try_enter` calls leaves it at or under the limit.
pub proof fn law_gate_within_limit(active: u64, limit: u64)
    requires
        active <= limit,
    ensures
        (if active < limit {
            (active + 1) as u64
        } else {
            active
        }) <= limit,
{
}

} // verus!
