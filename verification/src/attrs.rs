//! Route attribute sets and the interning cache.
//!
//! A `RouteAttrs` is a bag of independently optional BGP path attributes;
//! absence means "not present in this update". The cache stores attribute
//! sets in slots addressed by integer handle, so that many table entries can
//! share one stored set; a slot is reclaimed only when no live table entry
//! references it.

use vstd::prelude::*;

use crate::net::IpAddress;

verus! {

/// The BGP origin attribute.
#[derive(Clone, Copy, Debug, PartialEq, Eq, Structural, Hash)]
pub enum RouteOrigin {
    Igp,
    Egp,
    Incomplete,
}

/// A decoded set of BGP path attributes.
#[derive(Debug, Default)]
pub struct RouteAttrs {
    pub origin: Option<RouteOrigin>,
    pub as_path: Option<Vec<u32>>,
    pub communities: Option<Vec<(u16, u16)>>,
    pub large_communities: Option<Vec<(u32, u32, u32)>>,
    pub med: Option<u32>,
    pub local_pref: Option<u32>,
    pub nexthop: Option<IpAddress>,
}

/// The mathematical value of an attribute set.
#[verifier::ext_equal]
pub ghost struct RouteAttrsV {
    pub origin: Option<RouteOrigin>,
    pub as_path: Option<Seq<u32>>,
    pub communities: Option<Seq<(u16, u16)>>,
    pub large_communities: Option<Seq<(u32, u32, u32)>>,
    pub med: Option<u32>,
    pub local_pref: Option<u32>,
    pub nexthop: Option<IpAddress>,
}

impl View for RouteAttrs {
    type V = RouteAttrsV;

    open spec fn view(&self) -> RouteAttrsV {
        RouteAttrsV {
            origin: self.origin,
            as_path: match self.as_path {
                Some(v) => Some(v@),
                None => None,
            },
            communities: match self.communities {
                Some(v) => Some(v@),
                None => None,
            },
            large_communities: match self.large_communities {
                Some(v) => Some(v@),
                None => None,
            },
            med: self.med,
            local_pref: self.local_pref,
            nexthop: self.nexthop,
        }
    }
}

pub(crate) fn copy_vec_u32(v: &Vec<u32>) -> (r: Vec<u32>)
    ensures
        r@ == v@,
{
    let mut r: Vec<u32> = Vec::new();
    let mut i: usize = 0;
    while i < v.len()
        invariant
            i <= v@.len(),
            r@ == v@.take(i as int),
        decreases v@.len() - i,
    {
        r.push(v[i]);
        proof {
            assert(r@ =~= v@.take(i as int + 1));
        }
        i += 1;
    }
    proof {
        assert(v@.take(v@.len() as int) =~= v@);
    }
    r
}

pub(crate) fn copy_vec_pair(v: &Vec<(u16, u16)>) -> (r: Vec<(u16, u16)>)
    ensures
        r@ == v@,
{
    let mut r: Vec<(u16, u16)> = Vec::new();
    let mut i: usize = 0;
    while i < v.len()
        invariant
            i <= v@.len(),
            r@ == v@.take(i as int),
        decreases v@.len() - i,
    {
        r.push(v[i]);
        proof {
            assert(r@ =~= v@.take(i as int + 1));
        }
        i += 1;
    }
    proof {
        assert(v@.take(v@.len() as int) =~= v@);
    }
    r
}

pub(crate) fn copy_vec_triple(v: &Vec<(u32, u32, u32)>) -> (r: Vec<(u32, u32, u32)>)
    ensures
        r@ == v@,
{
    let mut r: Vec<(u32, u32, u32)> = Vec::new();
    let mut i: usize = 0;
    while i < v.len()
        invariant
            i <= v@.len(),
            r@ == v@.take(i as int),
        decreases v@.len() - i,
    {
        r.push(v[i]);
        proof {
            assert(r@ =~= v@.take(i as int + 1));
        }
        i += 1;
    }
    proof {
        assert(v@.take(v@.len() as int) =~= v@);
    }
    r
}

impl Clone for RouteAttrs {
    /// A clone carries the same attribute values.
    fn clone(&self) -> (r: Self)
        ensures
            r@ == self@,
    {
        RouteAttrs {
            origin: self.origin,
            as_path: match &self.as_path {
                Some(v) => Some(copy_vec_u32(v)),
                None => None,
            },
            communities: match &self.communities {
                Some(v) => Some(copy_vec_pair(v)),
                None => None,
            },
            large_communities: match &self.large_communities {
                Some(v) => Some(copy_vec_triple(v)),
                None => None,
            },
            med: self.med,
            local_pref: self.local_pref,
            nexthop: self.nexthop,
        }
    }
}

fn eq_vec_u32(a: &Vec<u32>, b: &Vec<u32>) -> (r: bool)
    ensures
        r == (a@ == b@),
{
    if a.len() != b.len() {
        return false;
    }
    let mut i: usize = 0;
    while i < a.len()
        invariant
            a@.len() == b@.len(),
            i <= a@.len(),
            forall|j: int| 0 <= j < i ==> a@[j] == b@[j],
        decreases a@.len() - i,
    {
        if a[i] != b[i] {
            return false;
        }
        i += 1;
    }
    proof {
        assert(a@ =~= b@);
    }
    true
}

fn eq_vec_pair(a: &Vec<(u16, u16)>, b: &Vec<(u16, u16)>) -> (r: bool)
    ensures
        r == (a@ == b@),
{
    if a.len() != b.len() {
        return false;
    }
    let mut i: usize = 0;
    while i < a.len()
        invariant
            a@.len() == b@.len(),
            i <= a@.len(),
            forall|j: int| 0 <= j < i ==> a@[j] == b@[j],
        decreases a@.len() - i,
    {
        if !(a[i].0 == b[i].0 && a[i].1 == b[i].1) {
            proof {
                assert(a@[i as int] != b@[i as int]);
            }
            return false;
        }
        i += 1;
    }
    proof {
        assert(a@ =~= b@);
    }
    true
}

fn eq_vec_triple(a: &Vec<(u32, u32, u32)>, b: &Vec<(u32, u32, u32)>) -> (r: bool)
    ensures
        r == (a@ == b@),
{
    if a.len() != b.len() {
        return false;
    }
    let mut i: usize = 0;
    while i < a.len()
        invariant
            a@.len() == b@.len(),
            i <= a@.len(),
            forall|j: int| 0 <= j < i ==> a@[j] == b@[j],
        decreases a@.len() - i,
    {
        if !(a[i].0 == b[i].0 && a[i].1 == b[i].1 && a[i].2 == b[i].2) {
            proof {
                assert(a@[i as int] != b@[i as int]);
            }
            return false;
        }
        i += 1;
    }
    proof {
        assert(a@ =~= b@);
    }
    true
}

/// Decides value equality of two attribute sets.
pub fn attrs_eq(a: &RouteAttrs, b: &RouteAttrs) -> (r: bool)
    ensures
        r == (a@ == b@),
{
    let origin_eq = match (&a.origin, &b.origin) {
        (None, None) => true,
        (Some(x), Some(y)) => *x == *y,
        _ => false,
    };
    if !origin_eq {
        return false;
    }
    let as_path_eq = match (&a.as_path, &b.as_path) {
        (None, None) => true,
        (Some(x), Some(y)) => eq_vec_u32(x, y),
        _ => false,
    };
    if !as_path_eq {
        return false;
    }
    let comm_eq = match (&a.communities, &b.communities) {
        (None, None) => true,
        (Some(x), Some(y)) => eq_vec_pair(x, y),
        _ => false,
    };
    if !comm_eq {
        return false;
    }
    let large_eq = match (&a.large_communities, &b.large_communities) {
        (None, None) => true,
        (Some(x), Some(y)) => eq_vec_triple(x, y),
        _ => false,
    };
    if !large_eq {
        return false;
    }
    let med_eq = match (&a.med, &b.med) {
        (None, None) => true,
        (Some(x), Some(y)) => *x == *y,
        _ => false,
    };
    if !med_eq {
        return false;
    }
    let lp_eq = match (&a.local_pref, &b.local_pref) {
        (None, None) => true,
        (Some(x), Some(y)) => *x == *y,
        _ => false,
    };
    if !lp_eq {
        return false;
    }
    let nh_eq = match (&a.nexthop, &b.nexthop) {
        (None, None) => true,
        (Some(x), Some(y)) => *x == *y,
        _ => false,
    };
    if !nh_eq {
        return false;
    }
    proof {
        assert(a@ =~= b@);
    }
    true
}

/// The interning cache: attribute sets in slots addressed by handle.
pub struct AttrsCache {
    pub slots: Vec<Option<RouteAttrs>>,
}

impl AttrsCache {
    /// Handle `h` addresses a stored set.
    pub open spec fn live(self, h: int) -> bool {
        0 <= h < self.slots@.len() && self.slots@[h] is Some
    }

    /// The set a live handle addresses.
    pub open spec fn resolve(self, h: int) -> RouteAttrsV {
        self.slots@[h]->Some_0@
    }

    pub fn new() -> (r: AttrsCache)
        ensures
            r.slots@.len() == 0,
    {
        AttrsCache { slots: Vec::new() }
    }

    /// Reads the set a live handle addresses.
    pub fn get(&self, h: usize) -> (r: &RouteAttrs)
        requires
            self.live(h as int),
        ensures
            r@ == self.resolve(h as int),
    {
        match &self.slots[h] {
            Some(a) => a,
            None => vstd::pervasive::unreached(),
        }
    }

    /// Stores `attrs` and returns a handle addressing it. An equal stored set
    /// is reused when one exists, and a free slot is reused before the cache
    /// grows; every previously live handle still addresses its old set.
    pub fn intern(&mut self, attrs: RouteAttrs) -> (h: usize)
        ensures
            final(self).live(h as int),
            final(self).resolve(h as int) == attrs@,
            forall|i: int|
                old(self).live(i) ==> final(self).live(i) && final(self).resolve(i) == old(
                    self,
                ).resolve(i),
            final(self).slots@.len() >= old(self).slots@.len(),
    {
        let mut i: usize = 0;
        let mut free: Option<usize> = None;
        while i < self.slots.len()
            invariant
                i <= self.slots@.len(),
                match free {
                    Some(f) => f < i && self.slots@[f as int] is None,
                    None => true,
                },
                *self == *old(self),
            decreases self.slots@.len() - i,
        {
            match &self.slots[i] {
                Some(a) => {
                    if attrs_eq(a, &attrs) {
                        return i;
                    }
                },
                None => {
                    if free.is_none() {
                        free = Some(i);
                    }
                },
            }
            i += 1;
        }
        match free {
            Some(f) => {
                self.slots.set(f, Some(attrs));
                f
            },
            None => {
                let h = self.slots.len();
                self.slots.push(Some(attrs));
                h
            },
        }
    }

    /// Clears every slot whose handle is not in `keep`; handles in `keep`
    /// still address their old sets.
    pub fn remove_expired(&mut self, keep: &Vec<usize>)
        ensures
            final(self).slots@.len() == old(self).slots@.len(),
            forall|i: int|
                0 <= i < old(self).slots@.len() ==> final(self).slots@[i] == (
                if keep@.contains(i as usize) {
                    old(self).slots@[i]
                } else {
                    None::<RouteAttrs>
                }),
    {
        let n = self.slots.len();
        let mut i: usize = 0;
        while i < n
            invariant
                i <= n,
                n == self.slots@.len(),
                self.slots@.len() == old(self).slots@.len(),
                forall|j: int|
                    i <= j < self.slots@.len() ==> self.slots@[j] == old(self).slots@[j],
                forall|j: int|
                    0 <= j < i ==> self.slots@[j] == (if keep@.contains(j as usize) {
                        old(self).slots@[j]
                    } else {
                        None::<RouteAttrs>
                    }),
            decreases n - i,
        {
            let mut found = false;
            let mut k: usize = 0;
            while k < keep.len()
                invariant
                    k <= keep@.len(),
                    found == exists|m: int| 0 <= m < k && keep@[m] == i,
                decreases keep@.len() - k,
            {
                if keep[k] == i {
                    found = true;
                    proof {
                        assert(keep@[k as int] == i);
                    }
                }
                k += 1;
            }
            proof {
                assert(found == keep@.contains(i));
            }
            if !found {
                self.slots.set(i, None);
            }
            i += 1;
        }
    }
}

} // verus!
