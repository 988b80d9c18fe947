//! Groups of object ids that are handled together.

use vstd::prelude::*;

verus! {

/// The ids of `ids` that are not `id`, in order.
pub open spec fn without(ids: Seq<u32>, id: u32) -> Seq<u32> {
    ids.filter(|x: u32| x != id)
}

/// Object ids that are handled together, in the order in which they were added.
#[derive(Clone, Debug)]
pub struct Group {
    pub vec: Vec<u32>,
}

impl View for Group {
    type V = Seq<u32>;

    open spec fn view(&self) -> Seq<u32> {
        self.vec@
    }
}

impl Default for Group {
    fn default() -> (r: Group)
        ensures
            r@ == Seq::<u32>::empty(),
    {
        Group { vec: Vec::new() }
    }
}

impl Group {
    /// Adds the object `id` at the end.
    pub fn insert(&mut self, id: u32)
        ensures
            final(self)@ == old(self)@.push(id),
    {
        self.vec.push(id);
    }

    /// Removes every occurrence of the object `id`.
    pub fn remove(&mut self, id: u32)
        ensures
            final(self)@ == without(old(self)@, id),
    {
        let ghost ids = self.vec@;
        let mut kept: Vec<u32> = Vec::new();
        let mut i: usize = 0;
        assert(ids.take(0) =~= Seq::<u32>::empty());
        while i < self.vec.len()
            invariant
                i <= ids.len(),
                ids == self.vec@,
                kept@ == without(ids.take(i as int), id),
            decreases ids.len() - i,
        {
            let x = self.vec[i];
            proof {
                let now = ids.take(i + 1);
                assert(now.drop_last() == ids.take(i as int));
                assert(now.last() == x);
                reveal(Seq::filter);
            }
            if x != id {
                kept.push(x);
            }
            i += 1;
        }
        assert(ids.take(i as int) == ids);
        self.vec = kept;
    }

    /// The number of ids in this group.
    pub fn size(&self) -> (r: usize)
        ensures
            r == self@.len(),
    {
        self.vec.len()
    }

    /// Whether the object `id` is in this group.
    pub fn contains(&self, id: u32) -> (r: bool)
        ensures
            r == self@.contains(id),
    {
        let mut i: usize = 0;
        while i < self.vec.len()
            invariant
                i <= self.vec@.len(),
                forall|j: int| 0 <= j < i ==> self.vec@[j] != id,
            decreases self.vec@.len() - i,
        {
            if self.vec[i] == id {
                return true;
            }
            i += 1;
        }
        false
    }

    /// Calls `f` on every id of the group, in order. The function may change
    /// from call to call, so whatever it has become must accept each id.
    pub fn for_each_id<F: FnMut(u32)>(&self, mut f: F)
        requires
            forall|g: F, i: int| 0 <= i < self@.len() ==> #[trigger] call_requires(g, (self@[i],)),
    {
        let mut i: usize = 0;
        while i < self.vec.len()
            invariant
                i <= self.vec@.len(),
                forall|g: F, i: int|
                    0 <= i < self@.len() ==> #[trigger] call_requires(g, (self@[i],)),
            decreases self.vec@.len() - i,
        {
            let id = self.vec[i];
            assert(call_requires(f, (self@[i as int],)));
            f(id);
            i += 1;
        }
    }

    /// Calls `f` on every id of the group, in order, with the place of the
    /// id in the group before it.
    pub fn for_each_id_enumerated<F: Fn(usize, u32)>(&mut self, f: F)
        requires
            forall|i: int|
                0 <= i < old(self)@.len() ==> call_requires(f, (i as usize, #[trigger] old(self)@[i])),
        ensures
            final(self)@ == old(self)@,
            forall|i: int|
                0 <= i < old(self)@.len() ==> call_ensures(
                    f,
                    (i as usize, #[trigger] old(self)@[i]),
                    (),
                ),
    {
        let mut index: usize = 0;
        while index < self.vec.len()
            invariant
                index <= self.vec@.len(),
                *self == *old(self),
                forall|i: int|
                    0 <= i < self@.len() ==> call_requires(f, (i as usize, #[trigger] self@[i])),
                forall|i: int|
                    0 <= i < index ==> call_ensures(f, (i as usize, #[trigger] self@[i]), ()),
            decreases self.vec@.len() - index,
        {
            let id = self.vec[index];
            assert(call_requires(f, (index as int as usize, self@[index as int])));
            f(index, id);
            index += 1;
        }
    }
}

/// A copy of the ids.
fn copy_ids(ids: &Vec<u32>) -> (r: Vec<u32>)
    ensures
        r@ == ids@,
{
    let mut r: Vec<u32> = Vec::new();
    let mut i: usize = 0;
    while i < ids.len()
        invariant
            i <= ids@.len(),
            r@ == ids@.take(i as int),
        decreases ids@.len() - i,
    {
        r.push(ids[i]);
        i += 1;
    }
    assert(ids@.take(i as int) == ids@);
    r
}

/// Whether the name at place `k` of `names` is `name`.
pub open spec fn named(names: Seq<String>, k: int, name: Seq<char>) -> bool {
    0 <= k < names.len() && names[k]@ == name
}

/// Whether `name` is among `names`.
pub open spec fn listed(names: Seq<String>, name: Seq<char>) -> bool {
    exists|k: int| named(names, k, name)
}

/// Whether no two names are the same.
pub open spec fn distinct_names(names: Seq<String>) -> bool {
    forall|i: int, j: int|
        0 <= i < j < names.len() ==> (#[trigger] names[i])@ != (#[trigger] names[j])@
}

/// The groups by their names: the group at the place of each name.
pub open spec fn groups_of(names: Seq<String>, groups: Seq<Group>) -> Map<Seq<char>, Seq<u32>> {
    Map::new(
        |name: Seq<char>| listed(names, name),
        |name: Seq<char>| groups[choose|k: int| named(names, k, name)]@,
    )
}

/// Among distinct names, the group of a name is the one at its place.
pub proof fn lemma_group_at_place(names: Seq<String>, groups: Seq<Group>, i: int)
    requires
        distinct_names(names),
        0 <= i < names.len(),
    ensures
        groups_of(names, groups).contains_key(names[i]@),
        groups_of(names, groups)[names[i]@] == groups[i]@,
{
    let name = names[i]@;
    assert(named(names, i, name));
    let j = choose|j: int| named(names, j, name);
    assert(named(names, j, name));
    if i < j {
        assert(names[i]@ != names[j]@);
    }
    if j < i {
        assert(names[j]@ != names[i]@);
    }
}

/// Putting a group in the place of a name changes the group of that name
/// and of no other.
pub proof fn lemma_group_put(names: Seq<String>, groups: Seq<Group>, i: int, group: Group)
    requires
        distinct_names(names),
        names.len() == groups.len(),
        0 <= i < names.len(),
    ensures
        groups_of(names, groups.update(i, group)) == groups_of(names, groups).insert(
            names[i]@,
            group@,
        ),
{
    let after = groups.update(i, group);
    assert forall|n: Seq<char>| groups_of(names, after).contains_key(n) implies groups_of(
        names,
        after,
    )[n] == groups_of(names, groups).insert(names[i]@, group@)[n] by {
        let a = choose|a: int| named(names, a, n);
        assert(named(names, a, n));
        lemma_group_at_place(names, after, a);
        lemma_group_at_place(names, groups, a);
        lemma_group_at_place(names, after, i);
    }
    assert(listed(names, names[i]@)) by {
        assert(named(names, i, names[i]@));
    }
    assert(groups_of(names, after) =~= groups_of(names, groups).insert(names[i]@, group@));
}

/// Groups by their names. No two groups have one name.
#[derive(Debug)]
pub struct Groups {
    names: Vec<String>,
    groups: Vec<Group>,
}

impl View for Groups {
    type V = Map<Seq<char>, Seq<u32>>;

    closed spec fn view(&self) -> Map<Seq<char>, Seq<u32>> {
        groups_of(self.names@, self.groups@)
    }
}

impl Clone for Groups {
    fn clone(&self) -> (r: Groups)
        ensures
            r@ == self@,
    {
        proof {
            use_type_invariant(self);
        }
        let mut names: Vec<String> = Vec::new();
        let mut groups: Vec<Group> = Vec::new();
        let mut i: usize = 0;
        while i < self.names.len()
            invariant
                i <= self.names@.len(),
                self.names@.len() == self.groups@.len(),
                names@ == self.names@.take(i as int),
                groups@.len() == i,
                forall|j: int| 0 <= j < i ==> (#[trigger] groups@[j])@ == self.groups@[j]@,
            decreases self.names@.len() - i,
        {
            names.push(self.names[i].clone());
            groups.push(Group { vec: copy_ids(&self.groups[i].vec) });
            i += 1;
        }
        proof {
            assert(self.names@.take(i as int) == self.names@);
            assert forall|n: Seq<char>| groups_of(names@, groups@).contains_key(n) implies groups_of(
                names@,
                groups@,
            )[n] == groups_of(self.names@, self.groups@)[n] by {
                let a = choose|a: int| named(names@, a, n);
                assert(named(names@, a, n));
                lemma_group_at_place(names@, groups@, a);
                lemma_group_at_place(self.names@, self.groups@, a);
            }
            assert(groups_of(names@, groups@) =~= groups_of(self.names@, self.groups@));
        }
        Groups { names, groups }
    }
}

impl Default for Groups {
    fn default() -> (r: Groups)
        ensures
            r@ == Map::<Seq<char>, Seq<u32>>::empty(),
    {
        let r = Groups { names: Vec::new(), groups: Vec::new() };
        assert forall|n: Seq<char>| !listed(r.names@, n) by {
            if listed(r.names@, n) {
                let k = choose|k: int| named(r.names@, k, n);
                assert(named(r.names@, k, n));
            }
        }
        assert(r@ =~= Map::<Seq<char>, Seq<u32>>::empty());
        r
    }
}

impl Groups {
    /// The validity of the representation: a name for every group, and no
    /// name twice.
    #[verifier::type_invariant]
    pub closed spec fn well_formed(self) -> bool {
        self.names@.len() == self.groups@.len() && distinct_names(self.names@)
    }

    /// The place of the group with the name `name`, if there is one.
    fn find(&self, name: &String) -> (r: Option<usize>)
        ensures
            match r {
                Some(i) => named(self.names@, i as int, name@),
                None => !listed(self.names@, name@),
            },
    {
        let mut i: usize = 0;
        while i < self.names.len()
            invariant
                i <= self.names@.len(),
                forall|j: int| 0 <= j < i ==> !named(self.names@, j, name@),
            decreases self.names@.len() - i,
        {
            if self.names[i] == *name {
                return Some(i);
            }
            i += 1;
        }
        assert(!listed(self.names@, name@)) by {
            if listed(self.names@, name@) {
                let k = choose|k: int| named(self.names@, k, name@);
                assert(named(self.names@, k, name@));
            }
        }
        None
    }

    /// The place of a group that is there.
    fn place(&self, name: &String) -> (i: usize)
        requires
            self@.contains_key(name@),
        ensures
            named(self.names@, i as int, name@),
            i < self.groups@.len(),
            self.groups@[i as int]@ == self@[name@],
    {
        proof {
            use_type_invariant(self);
        }
        match self.find(name) {
            Some(i) => {
                proof {
                    lemma_group_at_place(self.names@, self.groups@, i as int);
                }
                i
            },
            None => 0,
        }
    }

    /// Puts `group` in the place `i`, under the name that is there.
    fn put(&mut self, i: usize, group: Group)
        requires
            i < old(self).groups@.len(),
        ensures
            final(self).names == old(self).names,
            final(self).groups@ == old(self).groups@.update(i as int, group),
            final(self)@ == old(self)@.insert(old(self).names@[i as int]@, group@),
    {
        proof {
            use_type_invariant(&*self);
            lemma_group_put(self.names@, self.groups@, i as int, group);
        }
        let slot = &mut self.groups[i];
        *slot = group;
    }

    /// Whether there is a group with the name `name`.
    pub fn contains(&self, name: &String) -> (r: bool)
        ensures
            r == self@.contains_key(name@),
    {
        match self.find(name) {
            Some(_) => true,
            None => false,
        }
    }

    /// Makes the group `name` with the ids `vec`. A group that had the name
    /// before is replaced.
    pub fn insert(&mut self, name: String, vec: Vec<u32>)
        ensures
            final(self)@ == old(self)@.insert(name@, vec@),
    {
        proof {
            use_type_invariant(&*self);
        }
        let group = Group { vec };
        match self.find(&name) {
            Some(i) => {
                self.put(i, group);
            },
            None => {
                let ghost names = self.names@;
                let ghost groups = self.groups@;
                let mut whole = Groups::default();
                std::mem::swap(self, &mut whole);
                let Groups { names: mut all_names, groups: mut all_groups } = whole;
                all_names.push(name);
                all_groups.push(group);
                proof {
                    let more = all_names@;
                    let after = all_groups@;
                    let last = more.len() - 1;
                    assert(distinct_names(more)) by {
                        assert forall|a: int, b: int| 0 <= a < b < more.len() implies (
                        #[trigger] more[a])@ != (#[trigger] more[b])@ by {
                            if b < last {
                                assert(names[a]@ != names[b]@);
                            } else {
                                assert(!named(names, a, name@));
                            }
                        }
                    }
                    assert forall|n: Seq<char>|
                        listed(more, n) == groups_of(names, groups).insert(
                            name@,
                            vec@,
                        ).contains_key(n) by {
                        if listed(more, n) {
                            let a = choose|a: int| named(more, a, n);
                            if a < last {
                                assert(named(names, a, n));
                            }
                        }
                        if listed(names, n) {
                            let a = choose|a: int| named(names, a, n);
                            assert(named(more, a, n));
                        }
                        if n == name@ {
                            assert(named(more, last, n));
                        }
                    }
                    assert forall|n: Seq<char>| listed(more, n) implies groups_of(more, after)[n]
                        == groups_of(names, groups).insert(name@, vec@)[n] by {
                        let a = choose|a: int| named(more, a, n);
                        assert(named(more, a, n));
                        lemma_group_at_place(more, after, a);
                        if a < last {
                            lemma_group_at_place(names, groups, a);
                        }
                    }
                    assert(groups_of(more, after) =~= groups_of(names, groups).insert(
                        name@,
                        vec@,
                    ));
                }
                *self = Groups { names: all_names, groups: all_groups };
            },
        }
    }

    /// Adds the object `id` to the group `name`.
    pub fn insert_into_group(&mut self, name: String, id: u32)
        requires
            old(self)@.contains_key(name@),
        ensures
            final(self)@ == old(self)@.insert(name@, old(self)@[name@].push(id)),
    {
        let i = self.place(&name);
        let mut group = Group { vec: copy_ids(&self.groups[i].vec) };
        group.insert(id);
        self.put(i, group);
    }

    /// Removes the object `id` from the group `name`.
    pub fn remove_from_group(&mut self, name: String, id: u32)
        requires
            old(self)@.contains_key(name@),
        ensures
            final(self)@ == old(self)@.insert(name@, without(old(self)@[name@], id)),
    {
        let i = self.place(&name);
        let mut group = Group { vec: copy_ids(&self.groups[i].vec) };
        group.remove(id);
        self.put(i, group);
    }

    /// Removes the object `id` from every group.
    pub fn remove_from_all_groups(&mut self, id: u32)
        ensures
            final(self)@.dom() == old(self)@.dom(),
            forall|name: Seq<char>|
                old(self)@.contains_key(name) ==> #[trigger] final(self)@[name] == without(
                    old(self)@[name],
                    id,
                ),
    {
        proof {
            use_type_invariant(&*self);
        }
        let n = self.groups.len();
        let mut i: usize = 0;
        while i < n
            invariant
                i <= n,
                n == old(self).groups@.len(),
                n == old(self).names@.len(),
                distinct_names(old(self).names@),
                self.names == old(self).names,
                self.groups@.len() == n,
                forall|j: int|
                    0 <= j < i ==> (#[trigger] self.groups@[j])@ == without(
                        old(self).groups@[j]@,
                        id,
                    ),
                forall|j: int| i <= j < n ==> (#[trigger] self.groups@[j])@ == old(self).groups@[j]@,
            decreases n - i,
        {
            let mut group = Group { vec: copy_ids(&self.groups[i].vec) };
            group.remove(id);
            self.put(i, group);
            i += 1;
        }
        proof {
            let names = self.names@;
            let before = old(self).groups@;
            let after = self.groups@;
            assert(groups_of(names, after).dom() =~= groups_of(names, before).dom());
            assert forall|name: Seq<char>| groups_of(names, before).contains_key(
                name,
            ) implies groups_of(names, after)[name] == without(
                groups_of(names, before)[name],
                id,
            ) by {
                let a = choose|a: int| named(names, a, name);
                assert(named(names, a, name));
                lemma_group_at_place(names, before, a);
                lemma_group_at_place(names, after, a);
            }
        }
    }

    /// The names of the groups that hold the object `id`, each once.
    pub fn names(&self, id: u32) -> (r: Vec<String>)
        ensures
            distinct_names(r@),
            forall|name: Seq<char>|
                listed(r@, name) <==> (self@.contains_key(name) && self@[name].contains(id)),
    {
        proof {
            use_type_invariant(self);
        }
        let ghost names = self.names@;
        let ghost groups = self.groups@;
        let ghost mut places: Seq<int> = Seq::empty();
        let mut r: Vec<String> = Vec::new();
        let mut i: usize = 0;
        while i < self.groups.len()
            invariant
                i <= groups.len(),
                names == self.names@,
                groups == self.groups@,
                names.len() == groups.len(),
                distinct_names(names),
                places.len() == r@.len(),
                forall|k: int|
                    0 <= k < r@.len() ==> 0 <= #[trigger] places[k] < i && r@[k]@
                        == names[places[k]]@ && groups[places[k]]@.contains(id),
                forall|a: int, b: int| 0 <= a < b < r@.len() ==> places[a] < places[b],
                forall|j: int|
                    0 <= j < i && (#[trigger] groups[j])@.contains(id) ==> listed(r@, names[j]@),
            decreases groups.len() - i,
        {
            if self.groups[i].contains(id) {
                let ghost before = r@;
                r.push(self.names[i].clone());
                proof {
                    places = places.push(i as int);
                    let last = r@.len() - 1;
                    assert(r@[last]@ == names[i as int]@);
                    assert forall|j: int|
                        0 <= j < i + 1 && (#[trigger] groups[j])@.contains(id) implies listed(
                        r@,
                        names[j]@,
                    ) by {
                        if j < i {
                            let k = choose|k: int| named(before, k, names[j]@);
                            assert(r@[k] == before[k]);
                            assert(named(r@, k, names[j]@));
                        } else {
                            assert(named(r@, last, names[j]@));
                        }
                    }
                }
            }
            i += 1;
        }
        proof {
            assert(distinct_names(r@)) by {
                assert forall|a: int, b: int| 0 <= a < b < r@.len() implies (#[trigger] r@[a])@ != (
                #[trigger] r@[b])@ by {
                    assert(places[a] < places[b]);
                    assert(names[places[a]]@ != names[places[b]]@);
                }
            }
            assert forall|name: Seq<char>|
                listed(r@, name) <==> (self@.contains_key(name) && self@[name].contains(id)) by {
                if listed(r@, name) {
                    let k = choose|k: int| named(r@, k, name);
                    assert(named(names, places[k], name));
                    lemma_group_at_place(names, groups, places[k]);
                }
                if self@.contains_key(name) && self@[name].contains(id) {
                    let j = choose|j: int| named(names, j, name);
                    assert(named(names, j, name));
                    lemma_group_at_place(names, groups, j);
                    assert(groups[j]@.contains(id));
                }
            }
        }
        r
    }

    /// The group with the name `name`.
    pub fn get(&self, name: String) -> (r: &Group)
        requires
            self@.contains_key(name@),
        ensures
            r@ == self@[name@],
    {
        let i = self.place(&name);
        &self.groups[i]
    }

    /// The group with the name `name`, to be changed.
    pub fn get_mut(&mut self, name: String) -> (r: &mut Group)
        requires
            old(self)@.contains_key(name@),
        ensures
            r@ == old(self)@[name@],
            final(self)@ == old(self)@.insert(name@, final(r)@),
    {
        let i = self.place(&name);
        proof {
            use_type_invariant(&*self);
            assert forall|group: Group|
                groups_of(self.names@, #[trigger] self.groups@.update(i as int, group))
                    == self@.insert(name@, group@) by {
                lemma_group_put(self.names@, self.groups@, i as int, group);
            }
        }
        &mut self.groups[i]
    }
}

} // verus!
