//! Disks by name, in name order.
use vstd::prelude::*;
use vstd::utf8::*;

verus! {

/// `a` comes before `b` in byte order.
pub open spec fn before(a: Seq<u8>, b: Seq<u8>) -> bool
    decreases a.len(),
{
    if b.len() == 0 {
        false
    } else if a.len() == 0 {
        true
    } else if a[0] != b[0] {
        a[0] < b[0]
    } else {
        before(a.skip(1), b.skip(1))
    }
}

/// Byte order is total: of two names one comes first, or they are the same.
pub proof fn names_are_ordered(a: Seq<u8>, b: Seq<u8>)
    ensures
        before(a, b) || before(b, a) || a == b,
        !(before(a, b) && before(b, a)),
        !before(a, a),
    decreases a.len(),
{
    if a.len() > 0 && b.len() > 0 {
        names_are_ordered(a.skip(1), b.skip(1));
        if a[0] == b[0] && a.skip(1) == b.skip(1) {
            assert(a =~= seq![a[0]] + a.skip(1));
            assert(b =~= seq![b[0]] + b.skip(1));
        }
    } else if a.len() == 0 && b.len() == 0 {
        assert(a =~= b);
    } else if a.len() > 0 {
        names_are_ordered(a.skip(1), a.skip(1));
    }
}

proof fn lemma_before_transitive(a: Seq<u8>, b: Seq<u8>, c: Seq<u8>)
    requires
        before(a, b),
        before(b, c),
    ensures
        before(a, c),
    decreases a.len(),
{
    if a.len() > 0 && a[0] == b[0] && b[0] == c[0] {
        lemma_before_transitive(a.skip(1), b.skip(1), c.skip(1));
    }
}

/// Whether `a` comes before `b` in byte order.
fn is_before(a: &[u8], b: &[u8]) -> (r: bool)
    ensures
        r == before(a@, b@),
{
    let mut i: usize = 0;
    assert(a@.skip(0) =~= a@);
    assert(b@.skip(0) =~= b@);
    while i < a.len() && i < b.len()
        invariant
            i <= a@.len(),
            i <= b@.len(),
            before(a@, b@) == before(a@.skip(i as int), b@.skip(i as int)),
        decreases a@.len() - i,
    {
        assert(a@.skip(i as int)[0] == a@[i as int]);
        assert(b@.skip(i as int)[0] == b@[i as int]);
        if a[i] != b[i] {
            return a[i] < b[i];
        }
        assert(a@.skip(i as int).skip(1) =~= a@.skip(i + 1));
        assert(b@.skip(i as int).skip(1) =~= b@.skip(i + 1));
        i = i + 1;
    }
    i < b.len()
}

/// Disks, each under a name of its own.
pub struct Disks<BS> {
    list: Vec<(String, BS)>,
}

/// The bytes of a name.
pub open spec fn name_bytes(name: String) -> Seq<u8> {
    encode_utf8(name@)
}

/// Names ascend, so none occurs twice.
pub open spec fn in_name_order<BS>(list: Seq<(String, BS)>) -> bool {
    forall|i: int, j: int|
        0 <= i < j < list.len() ==> before(
            name_bytes((#[trigger] list[i]).0),
            name_bytes((#[trigger] list[j]).0),
        )
}

impl<BS> Disks<BS> {
    #[verifier::type_invariant]
    spec fn inv(self) -> bool {
        in_name_order(self.list@)
    }

    /// The disks in name order.
    pub closed spec fn list(&self) -> Seq<(String, BS)> {
        self.list@
    }

    pub fn new() -> (r: Self)
        ensures
            r.list() == Seq::<(String, BS)>::empty(),
    {
        Disks { list: Vec::new() }
    }

    /// Adds a disk at its place; one of the same name is handed back.
    pub fn insert(&mut self, name: String, disk: BS) -> (r: Option<BS>)
        ensures
            in_name_order(final(self).list()),
            match r {
                None => exists|k: int|
                    0 <= k <= old(self).list().len() && final(self).list() == #[trigger] old(
                        self,
                    ).list().insert(k, (name, disk)) && forall|i: int|
                        0 <= i < old(self).list().len() ==> name_bytes(
                            (#[trigger] old(self).list()[i]).0,
                        ) != name_bytes(name),
                Some(former) => exists|k: int|
                    0 <= k < old(self).list().len() && name_bytes(
                        (#[trigger] old(self).list()[k]).0,
                    ) == name_bytes(name) && former == old(self).list()[k].1 && final(self).list()
                        == old(self).list().update(k, (name, disk)),
            },
    {
        proof {
            use_type_invariant(&*self);
        }
        let ghost list0 = self.list@;
        let mut list: Vec<(String, BS)> = Vec::new();
        std::mem::swap(&mut list, &mut self.list);
        let mut k: usize = 0;
        let bytes: &[u8] = name.as_str().as_bytes();
        while k < list.len() && is_before(list[k].0.as_str().as_bytes(), bytes)
            invariant
                k <= list@.len(),
                list@ == list0,
                bytes@ == name_bytes(name),
                in_name_order(list0),
                forall|i: int|
                    0 <= i < k ==> before(name_bytes((#[trigger] list0[i]).0), bytes@),
            decreases list@.len() - k,
        {
            k = k + 1;
        }
        if k < list.len() {
            assert(!before(name_bytes(list0[k as int].0), bytes@));
            proof {
                names_are_ordered(name_bytes(list0[k as int].0), bytes@);
            }
            if !is_before(bytes, list[k].0.as_str().as_bytes()) {
                assert(name_bytes(list0[k as int].0) == bytes@);
                let former: (String, BS) = list.remove(k);
                list.insert(k, (name, disk));
                proof {
                    let all = list0.update(k as int, (name, disk));
                    assert(list@ =~= all);
                    assert forall|i: int, j: int| 0 <= i < j < all.len() implies before(
                        name_bytes((#[trigger] all[i]).0),
                        name_bytes((#[trigger] all[j]).0),
                    ) by {
                        assert(before(name_bytes(list0[i].0), name_bytes(list0[j].0)));
                    }
                }
                self.list = list;
                proof {
                    assert(old(self).list()[k as int] == list0[k as int]);
                    assert(self.list() == old(self).list().update(k as int, (name, disk)));
                }
                return Some(former.1);
            }
        }
        list.insert(k, (name, disk));
        proof {
            let all = list0.insert(k as int, (name, disk));
            assert(list@ == all);
            assert forall|i: int| k <= i < list0.len() implies before(
                bytes@,
                name_bytes((#[trigger] list0[i]).0),
            ) by {
                if i > k {
                    assert(before(name_bytes(list0[k as int].0), name_bytes(list0[i].0)));
                    lemma_before_transitive(
                        bytes@,
                        name_bytes(list0[k as int].0),
                        name_bytes(list0[i].0),
                    );
                }
            }
            assert forall|i: int, j: int| 0 <= i < j < all.len() implies before(
                name_bytes((#[trigger] all[i]).0),
                name_bytes((#[trigger] all[j]).0),
            ) by {
                let a = if i <= k {
                    i
                } else {
                    i - 1
                };
                let b = if j <= k {
                    j
                } else {
                    j - 1
                };
                if i < k {
                    assert(all[i] == list0[i]);
                } else if i > k {
                    assert(all[i] == list0[i - 1]);
                }
                if j < k {
                    assert(all[j] == list0[j]);
                } else if j > k {
                    assert(all[j] == list0[j - 1]);
                }
                if i != k && j != k {
                    assert(before(name_bytes(list0[a].0), name_bytes(list0[b].0)));
                }
            }
            assert forall|i: int| 0 <= i < list0.len() implies name_bytes((#[trigger] list0[i]).0)
                != name_bytes(name) by {
                names_are_ordered(name_bytes(list0[i].0), bytes@);
            }
        }
        self.list = list;
        assert(self.list() == old(self).list().insert(k as int, (name, disk)));
        None
    }

    /// The disks in name order.
    pub fn into_list(self) -> (r: Vec<(String, BS)>)
        ensures
            r@ == self.list(),
            in_name_order(r@),
    {
        proof {
            use_type_invariant(&self);
        }
        self.list
    }

    pub fn len(&self) -> (r: usize)
        ensures
            r == self.list().len(),
    {
        self.list.len()
    }

    /// The name of disk number `i`.
    pub fn name(&self, i: usize) -> (r: &String)
        requires
            i < self.list().len(),
        ensures
            *r == self.list()[i as int].0,
    {
        &self.list[i].0
    }
}

} // verus!
