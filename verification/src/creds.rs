use vstd::prelude::*;
use crate::args::Cli;
use vstd::string::StringExecFns;
use crate::chars::chars_of_str;
use crate::chars::string_of_chars;
use crate::text::ends_with_exec;
use crate::text::find_from;
use crate::text::first_index;
use crate::text::lemma_first_index_bounds;
use crate::text::lower;
use crate::text::lower_vec;
use crate::text::eq_chars;
use crate::text::remove_char;
use crate::text::remove_char_exec;
use crate::text::seq_ends_with;
use crate::text::seq_starts_with;
use crate::text::starts_with_exec;
use crate::text::subvec;

verus! {

/// A resolved endpoint/key pair, ready for client construction.
#[derive(Debug)]
pub struct Credentials {
    pub account: String,
    pub key: String,
}

/// Credentials could not be resolved from the given inputs.
#[derive(Debug)]
pub enum ConfigError {
    MissingCredentials,
}

impl ConfigError {
    pub fn message(&self) -> (r: String)
        ensures
            r@ == "must supply either a connection string or both account and key"@,
    {
        String::from_str("must supply either a connection string or both account and key")
    }
}

pub open spec fn endpoint_key() -> Seq<char> {
    seq!['a', 'c', 'c', 'o', 'u', 'n', 't', 'e', 'n', 'd', 'p', 'o', 'i', 'n', 't']
}

pub open spec fn account_key_key() -> Seq<char> {
    seq!['a', 'c', 'c', 'o', 'u', 'n', 't', 'k', 'e', 'y']
}

pub open spec fn https_prefix() -> Seq<char> {
    seq!['h', 't', 't', 'p', 's', ':', '/', '/']
}

pub open spec fn endpoint_suffix() -> Seq<char> {
    seq![
        '.',
        'd',
        'o',
        'c',
        'u',
        'm',
        'e',
        'n',
        't',
        's',
        '.',
        'a',
        'z',
        'u',
        'r',
        'e',
        '.',
        'c',
        'o',
        'm',
        ':',
        '4',
        '4',
        '3',
    ]
}

/// The `;`-separated segments of a connection string, in order; separators are
/// not part of any segment, and empty segments are kept.
pub open spec fn split_semi(s: Seq<char>) -> Seq<Seq<char>>
    decreases s.len(),
{
    let i = first_index(s, ';');
    if 0 <= i < s.len() {
        seq![s.take(i)] + split_semi(s.skip(i + 1))
    } else {
        seq![s]
    }
}

/// A segment is usable when it holds an `=`; its key is everything before the
/// first `=`, its value everything after.
pub open spec fn seg_has_eq(g: Seq<char>) -> bool {
    first_index(g, '=') < g.len()
}

pub open spec fn seg_key(g: Seq<char>) -> Seq<char> {
    g.take(first_index(g, '='))
}

pub open spec fn seg_value(g: Seq<char>) -> Seq<char> {
    g.skip(first_index(g, '=') + 1)
}

/// The value of the last usable segment whose lower-cased key is `key`.
pub open spec fn lookup(segs: Seq<Seq<char>>, key: Seq<char>) -> Option<Seq<char>>
    decreases segs.len(),
{
    if segs.len() == 0 {
        None
    } else {
        let g = segs.last();
        if seg_has_eq(g) && lower(seg_key(g)) == key {
            Some(seg_value(g))
        } else {
            lookup(segs.drop_last(), key)
        }
    }
}

pub open spec fn connection_string_pair(cs: Seq<char>) -> Option<(Seq<char>, Seq<char>)> {
    let segs = split_semi(cs);
    match (lookup(segs, endpoint_key()), lookup(segs, account_key_key())) {
        (Some(e), Some(k)) => Some((e, k)),
        _ => None,
    }
}

pub open spec fn opt_view(o: Option<String>) -> Option<Seq<char>> {
    match o {
        Some(s) => Some(s@),
        None => None,
    }
}

/// What resolution returns for the three optional inputs: a complete
/// connection string wins; otherwise both discrete values must be present.
pub open spec fn spec_resolve(
    conn: Option<Seq<char>>,
    account: Option<Seq<char>>,
    key: Option<Seq<char>>,
) -> Option<(Seq<char>, Seq<char>)> {
    let from_cs = match conn {
        Some(cs) => connection_string_pair(cs),
        None => None,
    };
    if from_cs is Some {
        from_cs
    } else {
        match (account, key) {
            (Some(a), Some(k)) => Some((a, k)),
            _ => None,
        }
    }
}


pub open spec fn recognized(g: Seq<char>, key: Seq<char>) -> bool {
    seg_has_eq(g) && lower(seg_key(g)) == key
}

proof fn lemma_lookup_none(segs: Seq<Seq<char>>, key: Seq<char>)
    ensures
        (lookup(segs, key) is None) == (forall|i: int|
            0 <= i < segs.len() ==> !recognized(#[trigger] segs[i], key)),
    decreases segs.len(),
{
    if segs.len() > 0 {
        lemma_lookup_none(segs.drop_last(), key);
        if recognized(segs.last(), key) {
            assert(recognized(segs[segs.len() - 1], key));
        } else {
            assert forall|i: int|
                0 <= i < segs.len() && (lookup(segs, key) is None) implies !recognized(
                #[trigger] segs[i],
                key,
            ) by {
                if i < segs.len() - 1 {
                    assert(segs.drop_last()[i] == segs[i]);
                }
            }
            assert forall|i: int| 0 <= i < segs.drop_last().len() && (forall|q: int|
                0 <= q < segs.len() ==> !recognized(#[trigger] segs[q], key)) implies !recognized(
                #[trigger] segs.drop_last()[i],
                key,
            ) by {
                assert(segs.drop_last()[i] == segs[i]);
            }
        }
    }
}

proof fn lemma_lookup_unique(segs: Seq<Seq<char>>, key: Seq<char>, g: Seq<char>)
    requires
        segs.contains(g),
        recognized(g, key),
        forall|x: Seq<char>|
            segs.contains(x) && #[trigger] recognized(x, key) ==> x == g,
    ensures
        lookup(segs, key) == Some(seg_value(g)),
    decreases segs.len(),
{
    if recognized(segs.last(), key) {
        assert(segs.contains(segs.last()));
        assert(segs.last() == g);
    } else {
        assert(segs.last() != g);
        let i = choose|i: int| 0 <= i < segs.len() && segs[i] == g;
        assert(segs.drop_last()[i] == g);
        assert(segs.drop_last().contains(g));
        assert forall|x: Seq<char>|
            segs.drop_last().contains(x) && #[trigger] recognized(x, key) implies x == g by {
            let q = choose|q: int| 0 <= q < segs.drop_last().len() && segs.drop_last()[q] == x;
            assert(segs[q] == x);
            assert(segs.contains(x));
        }
        lemma_lookup_unique(segs.drop_last(), key, g);
    }
}

/// Extraction does not depend on the order of the segments, as long as no two
/// distinct segments are recognized for the looked-up key: rearranging the
/// segments leaves the result unchanged.
pub proof fn lemma_lookup_order_independent(
    segs1: Seq<Seq<char>>,
    segs2: Seq<Seq<char>>,
    key: Seq<char>,
)
    requires
        segs1.to_multiset() == segs2.to_multiset(),
        forall|x: Seq<char>, y: Seq<char>|
            segs1.contains(x) && segs1.contains(y) && #[trigger] recognized(x, key)
                && #[trigger] recognized(y, key) ==> x == y,
    ensures
        lookup(segs1, key) == lookup(segs2, key),
{
    broadcast use vstd::seq_lib::group_to_multiset_ensures;

    assert forall|x: Seq<char>| segs1.contains(x) == segs2.contains(x) by {
        assert(segs1.contains(x) == (segs1.to_multiset().count(x) > 0));
        assert(segs2.contains(x) == (segs2.to_multiset().count(x) > 0));
    }
    lemma_lookup_none(segs1, key);
    lemma_lookup_none(segs2, key);
    if exists|i: int| 0 <= i < segs1.len() && recognized(#[trigger] segs1[i], key) {
        let i = choose|i: int| 0 <= i < segs1.len() && recognized(#[trigger] segs1[i], key);
        let g = segs1[i];
        assert(segs1.contains(g));
        assert(segs2.contains(g));
        lemma_lookup_unique(segs1, key, g);
        assert forall|x: Seq<char>|
            segs2.contains(x) && #[trigger] recognized(x, key) implies x == g by {
            assert(segs1.contains(x));
        }
        lemma_lookup_unique(segs2, key, g);
    } else {
        assert forall|q: int| 0 <= q < segs2.len() implies !recognized(
            #[trigger] segs2[q],
            key,
        ) by {
            assert(segs2.contains(segs2[q]));
            assert(segs1.contains(segs2[q]));
            let p = choose|p: int| 0 <= p < segs1.len() && segs1[p] == segs2[q];
        }
    }
}

pub open spec fn segs_view(v: Seq<Vec<char>>) -> Seq<Seq<char>> {
    Seq::new(v.len(), |i: int| v[i]@)
}

fn split_semi_exec(s: &Vec<char>) -> (r: Vec<Vec<char>>)
    ensures
        segs_view(r@) == split_semi(s@),
{
    let mut segs: Vec<Vec<char>> = Vec::new();
    let mut start: usize = 0;
    let mut finished = false;
    proof {
        assert(s@.skip(0) =~= s@);
        assert(segs_view(segs@) + split_semi(s@) =~= split_semi(s@));
    }
    while !finished
        invariant
            0 <= start <= s@.len(),
            !finished ==> split_semi(s@) =~= segs_view(segs@) + split_semi(s@.skip(start as int)),
            finished ==> segs_view(segs@) =~= split_semi(s@),
        decreases s@.len() - start + (if finished { 0int } else { 1int }),
    {
        let j = find_from(s, start, ';');
        let seg = subvec(s, start, j);
        proof {
            let rest = s@.skip(start as int);
            lemma_first_index_bounds(rest, ';');
            if j < s@.len() {
                assert(rest.take(j - start) =~= s@.subrange(start as int, j as int));
                assert(rest.skip(j - start + 1) =~= s@.skip(j + 1));
                assert(split_semi(rest) == seq![seg@] + split_semi(s@.skip(j + 1)));
            } else {
                assert(rest =~= s@.subrange(start as int, j as int));
                assert(split_semi(rest) == seq![seg@]);
            }
            assert(segs_view(segs@.push(seg)) =~= segs_view(segs@) + seq![seg@]);
        }
        segs.push(seg);
        if j == s.len() {
            finished = true;
        } else {
            start = j + 1;
        }
    }
    segs
}

fn lookup_exec(segs: &Vec<Vec<char>>, key: &Vec<char>) -> (r: Option<Vec<char>>)
    ensures
        match r {
            Some(v) => lookup(segs_view(segs@), key@) == Some(v@),
            None => lookup(segs_view(segs@), key@) is None,
        },
{
    let mut found: Option<Vec<char>> = None;
    let mut i: usize = 0;
    while i < segs.len()
        invariant
            0 <= i <= segs@.len(),
            match found {
                Some(v) => lookup(segs_view(segs@).take(i as int), key@) == Some(v@),
                None => lookup(segs_view(segs@).take(i as int), key@) is None,
            },
        decreases segs@.len() - i,
    {
        let g = &segs[i];
        let j = find_from(g, 0, '=');
        proof {
            assert(g@.skip(0) =~= g@);
        }
        if j < g.len() {
            let k = subvec(g, 0, j);
            let low = lower_vec(&k);
            proof {
                assert(k@ =~= g@.take(first_index(g@, '=')));
            }
            if eq_chars(&low, key) {
                let v = subvec(g, j + 1, g.len());
                proof {
                    assert(v@ =~= g@.skip(first_index(g@, '=') + 1));
                }
                found = Some(v);
            }
        }
        proof {
            let sv = segs_view(segs@);
            assert(sv.take(i + 1).drop_last() =~= sv.take(i as int));
            assert(sv.take(i + 1).last() == g@);
        }
        i = i + 1;
    }
    proof {
        assert(segs_view(segs@).take(segs@.len() as int) =~= segs_view(segs@));
    }
    found
}

/// Resolve credentials from the command-line inputs: a connection string that
/// yields both an endpoint and a key takes precedence; otherwise discrete
/// account and key values are used; anything less is a configuration error.
pub fn parse_connection_args(args: &Cli) -> (r: Result<Credentials, ConfigError>)
    ensures
        match r {
            Ok(c) => spec_resolve(
                opt_view(args.connection_string),
                opt_view(args.account),
                opt_view(args.key),
            ) == Some((c.account@, c.key@)),
            Err(_) => spec_resolve(
                opt_view(args.connection_string),
                opt_view(args.account),
                opt_view(args.key),
            ) is None,
        },
{
    match &args.connection_string {
        Some(cs) => {
            let cv = chars_of_str(cs.as_str());
            let segs = split_semi_exec(&cv);
            let ek = endpoint_key_exec();
            let kk = account_key_key_exec();
            let e = lookup_exec(&segs, &ek);
            let k = lookup_exec(&segs, &kk);
            match (e, k) {
                (Some(ev), Some(kv)) => {
                    return Ok(
                        Credentials {
                            account: string_of_chars(&ev),
                            key: string_of_chars(&kv),
                        },
                    );
                },
                _ => {},
            }
        },
        None => {},
    }
    match (&args.account, &args.key) {
        (Some(a), Some(k)) => Ok(Credentials { account: a.clone(), key: k.clone() }),
        _ => Err(ConfigError::MissingCredentials),
    }
}

fn endpoint_key_exec() -> (r: Vec<char>)
    ensures
        r@ == endpoint_key(),
{
    let v = chars_of_str("accountendpoint");
    proof {
        reveal_strlit("accountendpoint");
    }
    v
}

fn account_key_key_exec() -> (r: Vec<char>)
    ensures
        r@ == account_key_key(),
{
    let v = chars_of_str("accountkey");
    proof {
        reveal_strlit("accountkey");
    }
    v
}

fn https_prefix_exec() -> (r: Vec<char>)
    ensures
        r@ == https_prefix(),
{
    let v = chars_of_str("https://");
    proof {
        reveal_strlit("https://");
    }
    v
}

fn endpoint_suffix_exec() -> (r: Vec<char>)
    ensures
        r@ == endpoint_suffix(),
{
    let v = chars_of_str(".documents.azure.com:443");
    proof {
        reveal_strlit(".documents.azure.com:443");
    }
    v
}

pub open spec fn strip_prefix(s: Seq<char>, p: Seq<char>) -> Seq<char> {
    if seq_starts_with(s, p) {
        s.skip(p.len() as int)
    } else {
        s
    }
}

pub open spec fn strip_suffix(s: Seq<char>, p: Seq<char>) -> Seq<char> {
    if seq_ends_with(s, p) {
        s.take(s.len() - p.len())
    } else {
        s
    }
}

/// Endpoint normalization: drop a leading scheme, every `/`, and then a
/// trailing service-domain suffix, leaving the bare account name.
pub open spec fn spec_normalize(s: Seq<char>) -> Seq<char> {
    strip_suffix(remove_char(strip_prefix(s, https_prefix()), '/'), endpoint_suffix())
}

pub proof fn lemma_remove_char_no_occurrence(s: Seq<char>, c: char)
    ensures
        forall|i: int| 0 <= i < remove_char(s, c).len() ==> remove_char(s, c)[i] != c,
    decreases s.len(),
{
    if s.len() > 0 {
        lemma_remove_char_no_occurrence(s.drop_last(), c);
        let r = remove_char(s, c);
        let rd = remove_char(s.drop_last(), c);
        assert forall|i: int| 0 <= i < r.len() implies r[i] != c by {
            if s.last() != c {
                if i < rd.len() {
                    assert(r[i] == rd[i]);
                } else {
                    assert(r[i] == s.last());
                }
            }
        }
    }
}

pub proof fn lemma_remove_char_identity(s: Seq<char>, c: char)
    requires
        forall|i: int| 0 <= i < s.len() ==> s[i] != c,
    ensures
        remove_char(s, c) == s,
    decreases s.len(),
{
    if s.len() > 0 {
        lemma_remove_char_identity(s.drop_last(), c);
        assert(remove_char(s, c) =~= s);
    }
}

/// Normalization is idempotent: a second pass changes nothing. The one
/// exception is a normalized value that itself still ends in the service
/// suffix; such a value loses the suffix again, so it is left out here.
pub proof fn lemma_normalize_idempotent(s: Seq<char>)
    requires
        !seq_ends_with(spec_normalize(s), endpoint_suffix()),
    ensures
        spec_normalize(spec_normalize(s)) == spec_normalize(s),
{
    let a = strip_prefix(s, https_prefix());
    let m = remove_char(a, '/');
    let n = spec_normalize(s);
    lemma_remove_char_no_occurrence(a, '/');
    assert(forall|i: int| 0 <= i < n.len() ==> n[i] != '/');
    assert(!seq_starts_with(n, https_prefix())) by {
        if seq_starts_with(n, https_prefix()) {
            assert(n.take(8) == https_prefix());
            assert(n[6] == https_prefix()[6]);
            assert(https_prefix()[6] == '/');
        }
    }
    lemma_remove_char_identity(n, '/');
    assert(spec_normalize(n) == n);
}

/// Stripping the leading scheme and stripping the trailing service suffix can
/// be done in either order.
pub proof fn lemma_strip_prefix_suffix_commute(s: Seq<char>)
    ensures
        strip_suffix(strip_prefix(s, https_prefix()), endpoint_suffix()) == strip_prefix(
            strip_suffix(s, endpoint_suffix()),
            https_prefix(),
        ),
{
    let pre = https_prefix();
    let suf = endpoint_suffix();
    let len = s.len() as int;
    if seq_starts_with(s, pre) && seq_ends_with(s, suf) {
        assert(len >= 32) by {
            if len < 32 {
                let p0 = len - 24;
                assert(s.skip(len - 24)[0] == suf[0]);
                assert(s[p0] == '.');
                assert(s.take(8)[p0] == s[p0]);
                assert(s[p0] == pre[p0]);
            }
        }
        assert(s.skip(8).skip(len - 8 - 24) =~= s.skip(len - 24));
        assert(seq_ends_with(s.skip(8), suf));
        assert(s.take(len - 24).take(8) =~= s.take(8));
        assert(seq_starts_with(s.take(len - 24), pre));
        assert(s.skip(8).take(len - 8 - 24) =~= s.take(len - 24).skip(8));
    } else if seq_starts_with(s, pre) {
        assert(!seq_ends_with(s.skip(8), suf)) by {
            if seq_ends_with(s.skip(8), suf) {
                assert(s.skip(8).skip(len - 8 - 24) =~= s.skip(len - 24));
                assert(seq_ends_with(s, suf));
            }
        }
    } else if seq_ends_with(s, suf) {
        assert(!seq_starts_with(s.take(len - 24), pre)) by {
            if seq_starts_with(s.take(len - 24), pre) {
                assert(s.take(len - 24).take(8) =~= s.take(8));
                assert(seq_starts_with(s, pre));
            }
        }
    }
}

pub fn normalize_account(s: &String) -> (r: String)
    ensures
        r@ == spec_normalize(s@),
{
    let cv = chars_of_str(s.as_str());
    let p = https_prefix_exec();
    let after_prefix = if starts_with_exec(&cv, &p) {
        let t = subvec(&cv, p.len(), cv.len());
        proof {
            assert(t@ =~= cv@.skip(https_prefix().len() as int));
        }
        t
    } else {
        cv
    };
    let no_slash = remove_char_exec(&after_prefix, '/');
    let suf = endpoint_suffix_exec();
    let trimmed = if ends_with_exec(&no_slash, &suf) {
        let t = subvec(&no_slash, 0, no_slash.len() - suf.len());
        proof {
            assert(t@ =~= no_slash@.take(no_slash@.len() - endpoint_suffix().len()));
        }
        t
    } else {
        no_slash
    };
    string_of_chars(&trimmed)
}

} // verus!
