use vstd::prelude::*;
use crate::identity::Identity;

verus! {

/// The abstract view of a list of identities.
pub open spec fn ids_view(v: Seq<Identity>) -> Seq<Seq<u8>> {
    v.map_values(|x: Identity| x@)
}

/// No identity occurs twice.
pub open spec fn no_duplicates(s: Seq<Seq<u8>>) -> bool {
    forall|i: int, j: int| 0 <= i < s.len() && 0 <= j < s.len() && i != j ==> s[i] != s[j]
}

/// The set after granting `q`: unchanged when `q` is already present,
/// otherwise `q` appended at the end.
pub open spec fn granted(s: Seq<Seq<u8>>, q: Seq<u8>) -> Seq<Seq<u8>> {
    if s.contains(q) {
        s
    } else {
        s.push(q)
    }
}

/// The set after revoking `q`: every entry other than `q`, in order.
pub open spec fn revoked(s: Seq<Seq<u8>>, q: Seq<u8>) -> Seq<Seq<u8>>
    decreases s.len(),
{
    if s.len() == 0 {
        s
    } else {
        let rest = revoked(s.drop_last(), q);
        if s.last() == q {
            rest
        } else {
            rest.push(s.last())
        }
    }
}

/// Membership in `revoked(s, q)`: everything of `s` except `q`.
pub proof fn lemma_revoked_contains(s: Seq<Seq<u8>>, q: Seq<u8>, x: Seq<u8>)
    ensures
        revoked(s, q).contains(x) == (s.contains(x) && x != q),
    decreases s.len(),
{
    if s.len() > 0 {
        let d = s.drop_last();
        let rest = revoked(d, q);
        lemma_revoked_contains(d, q, x);
        assert(s.contains(x) == (d.contains(x) || s.last() == x)) by {
            if s.contains(x) && s.last() != x {
                let k = choose|k: int| 0 <= k < s.len() && s[k] == x;
                assert(d[k] == x);
            }
            if d.contains(x) {
                let k = choose|k: int| 0 <= k < d.len() && d[k] == x;
                assert(s[k] == x);
            }
            if s.last() == x {
                assert(s[s.len() - 1] == x);
            }
        }
        if s.last() != q {
            let t = rest.push(s.last());
            assert(t.contains(x) == (rest.contains(x) || s.last() == x)) by {
                if t.contains(x) && s.last() != x {
                    let k = choose|k: int| 0 <= k < t.len() && t[k] == x;
                    assert(rest[k] == x);
                }
                if rest.contains(x) {
                    let k = choose|k: int| 0 <= k < rest.len() && rest[k] == x;
                    assert(t[k] == x);
                }
                if s.last() == x {
                    assert(t[rest.len() as int] == x);
                }
            }
        }
    }
}

/// Revoking keeps the set free of duplicates.
pub proof fn lemma_revoked_no_duplicates(s: Seq<Seq<u8>>, q: Seq<u8>)
    requires
        no_duplicates(s),
    ensures
        no_duplicates(revoked(s, q)),
    decreases s.len(),
{
    if s.len() > 0 {
        let d = s.drop_last();
        assert(no_duplicates(d));
        lemma_revoked_no_duplicates(d, q);
        if s.last() != q {
            lemma_revoked_contains(d, q, s.last());
            assert(!d.contains(s.last()));
        }
    }
}

/// Granting keeps the set free of duplicates.
pub proof fn lemma_granted_no_duplicates(s: Seq<Seq<u8>>, q: Seq<u8>)
    requires
        no_duplicates(s),
    ensures
        no_duplicates(granted(s, q)),
        granted(s, q).contains(q),
        forall|x: Seq<u8>| x != q ==> (granted(s, q).contains(x) == s.contains(x)),
{
    if !s.contains(q) {
        let t = s.push(q);
        assert(t[s.len() as int] == q);
        assert forall|x: Seq<u8>| x != q implies (t.contains(x) == s.contains(x)) by {
            if t.contains(x) {
                let k = choose|k: int| 0 <= k < t.len() && t[k] == x;
                assert(s[k] == x);
            }
            if s.contains(x) {
                let k = choose|k: int| 0 <= k < s.len() && s[k] == x;
                assert(t[k] == x);
            }
        }
    }
}

/// Whether `provider` is in the list.
pub fn is_authorized(providers: &Vec<Identity>, provider: &Identity) -> (r: bool)
    ensures
        r == ids_view(providers@).contains(provider@),
{
    let mut i: usize = 0;
    while i < providers.len()
        invariant
            0 <= i <= providers.len(),
            forall|k: int| 0 <= k < i ==> providers@[k]@ != provider@,
        decreases providers.len() - i,
    {
        if providers[i].same_as(provider) {
            assert(ids_view(providers@)[i as int] == provider@);
            return true;
        }
        i = i + 1;
    }
    assert(!ids_view(providers@).contains(provider@)) by {
        if ids_view(providers@).contains(provider@) {
            let k = choose|k: int|
                0 <= k < ids_view(providers@).len() && ids_view(providers@)[k] == provider@;
            assert(providers@[k]@ == provider@);
        }
    }
    false
}

/// The list after granting `provider`, and whether it changed (so that it
/// must be stored again).
pub fn grant_provider(providers: Vec<Identity>, provider: Identity) -> (r: (Vec<Identity>, bool))
    ensures
        ids_view(r.0@) == granted(ids_view(providers@), provider@),
        r.1 == !ids_view(providers@).contains(provider@),
{
    let mut providers = providers;
    if is_authorized(&providers, &provider) {
        (providers, false)
    } else {
        let ghost before = providers@;
        providers.push(provider);
        assert(ids_view(providers@) =~= ids_view(before).push(provider@));
        (providers, true)
    }
}

/// The list after revoking `provider`: every other entry, in order.
pub fn revoke_provider(providers: &Vec<Identity>, provider: &Identity) -> (r: Vec<Identity>)
    ensures
        ids_view(r@) == revoked(ids_view(providers@), provider@),
{
    let mut out: Vec<Identity> = Vec::new();
    let mut i: usize = 0;
    while i < providers.len()
        invariant
            0 <= i <= providers.len(),
            ids_view(out@) == revoked(ids_view(providers@.take(i as int)), provider@),
        decreases providers.len() - i,
    {
        let ghost prefix = providers@.take(i as int);
        let ghost next = providers@.take(i as int + 1);
        assert(ids_view(next).drop_last() =~= ids_view(prefix));
        assert(ids_view(next).last() == providers@[i as int]@);
        if !providers[i].same_as(provider) {
            let ghost old_out = out@;
            out.push(providers[i].duplicate());
            assert(ids_view(out@) =~= ids_view(old_out).push(providers@[i as int]@));
        }
        i = i + 1;
    }
    assert(providers@.take(i as int) =~= providers@);
    out
}

} // verus!
