//! Names in order: the byte order of strings, and sets and maps of names that
//! keep to it.

use vstd::prelude::*;
use vstd::utf8::encode_utf8;

use crate::text::same_str;

verus! {

/// Whether `a` stands before `b` in the order of byte strings.
pub open spec fn bytes_before(a: Seq<u8>, b: Seq<u8>) -> bool
    decreases a.len(),
{
    if b.len() == 0 {
        false
    } else if a.len() == 0 {
        true
    } else if a[0] == b[0] {
        bytes_before(a.skip(1), b.skip(1))
    } else {
        a[0] < b[0]
    }
}

/// Whether `a` stands before `b`: strings are ordered by the bytes of their
/// UTF-8 encoding.
pub open spec fn name_before(a: Seq<char>, b: Seq<char>) -> bool {
    bytes_before(encode_utf8(a), encode_utf8(b))
}

/// How two names stand to each other.
#[derive(Clone, Copy, PartialEq, Eq, Structural)]
pub enum NameOrder {
    Before,
    Same,
    After,
}

proof fn lemma_bytes_irreflexive(a: Seq<u8>)
    ensures
        !bytes_before(a, a),
    decreases a.len(),
{
    if a.len() > 0 {
        lemma_bytes_irreflexive(a.skip(1));
    }
}

proof fn lemma_bytes_transitive(a: Seq<u8>, b: Seq<u8>, c: Seq<u8>)
    requires
        bytes_before(a, b),
        bytes_before(b, c),
    ensures
        bytes_before(a, c),
    decreases a.len(),
{
    if a.len() > 0 && a[0] == b[0] && b[0] == c[0] {
        lemma_bytes_transitive(a.skip(1), b.skip(1), c.skip(1));
    }
}

proof fn lemma_bytes_total(a: Seq<u8>, b: Seq<u8>)
    ensures
        bytes_before(a, b) || a == b || bytes_before(b, a),
    decreases a.len(),
{
    if a.len() == 0 && b.len() == 0 {
        assert(a =~= b);
    } else if a.len() > 0 && b.len() > 0 && a[0] == b[0] {
        lemma_bytes_total(a.skip(1), b.skip(1));
        if a.skip(1) == b.skip(1) {
            assert(a =~= seq![a[0]] + a.skip(1));
            assert(b =~= seq![b[0]] + b.skip(1));
        }
    }
}

/// No name stands before itself.
pub proof fn lemma_irreflexive(a: Seq<char>)
    ensures
        !name_before(a, a),
{
    lemma_bytes_irreflexive(encode_utf8(a));
}

/// The order of names is transitive.
pub proof fn lemma_transitive(a: Seq<char>, b: Seq<char>, c: Seq<char>)
    requires
        name_before(a, b),
        name_before(b, c),
    ensures
        name_before(a, c),
{
    lemma_bytes_transitive(encode_utf8(a), encode_utf8(b), encode_utf8(c));
}

/// Of two different names one stands before the other.
pub proof fn lemma_total(a: Seq<char>, b: Seq<char>)
    ensures
        name_before(a, b) || a == b || name_before(b, a),
{
    lemma_bytes_total(encode_utf8(a), encode_utf8(b));
    vstd::utf8::encode_utf8_decode_utf8(a);
    vstd::utf8::encode_utf8_decode_utf8(b);
}

/// How `a` stands to `b`.
pub fn order(a: &str, b: &str) -> (res: NameOrder)
    ensures
        match res {
            NameOrder::Before => name_before(a@, b@),
            NameOrder::Same => a@ == b@,
            NameOrder::After => name_before(b@, a@),
        },
{
    let x = a.as_bytes();
    let y = b.as_bytes();
    let mut i: usize = 0;
    assert(x@.skip(0) =~= x@);
    assert(y@.skip(0) =~= y@);
    while i < x.len() && i < y.len() && x[i] == y[i]
        invariant
            i <= x@.len(),
            i <= y@.len(),
            x@.take(i as int) =~= y@.take(i as int),
            bytes_before(x@, y@) == bytes_before(x@.skip(i as int), y@.skip(i as int)),
            bytes_before(y@, x@) == bytes_before(y@.skip(i as int), x@.skip(i as int)),
        decreases x@.len() - i,
    {
        assert(x@.skip(i as int).skip(1) =~= x@.skip(i + 1));
        assert(y@.skip(i as int).skip(1) =~= y@.skip(i + 1));
        assert(x@.take(i + 1) =~= x@.take(i as int).push(x@[i as int]));
        assert(y@.take(i + 1) =~= y@.take(i as int).push(y@[i as int]));
        i += 1;
    }
    if i == x.len() && i == y.len() {
        proof {
            assert(x@.take(i as int) =~= x@);
            assert(y@.take(i as int) =~= y@);
            vstd::utf8::encode_utf8_decode_utf8(a@);
            vstd::utf8::encode_utf8_decode_utf8(b@);
        }
        NameOrder::Same
    } else if i == x.len() {
        NameOrder::Before
    } else if i == y.len() {
        NameOrder::After
    } else {
        if x[i] < y[i] {
            NameOrder::Before
        } else {
            NameOrder::After
        }
    }
}

/// The texts of a list of strings.
pub open spec fn views(v: Seq<String>) -> Seq<Seq<char>> {
    Seq::new(v.len(), |i: int| v[i]@)
}

/// Whether a list of names holds `name`.
pub fn lists(names: &Vec<String>, name: &str) -> (res: bool)
    ensures
        res == views(names@).contains(name@),
{
    let mut i: usize = 0;
    while i < names.len()
        invariant
            i <= names@.len(),
            forall|j: int| 0 <= j < i ==> #[trigger] views(names@)[j] != name@,
        decreases names@.len() - i,
    {
        assert(views(names@)[i as int] == names@[i as int]@);
        if same_str(names[i].as_str(), name) {
            return true;
        }
        i += 1;
    }
    false
}

/// Whether names stand in order, none of them twice.
pub open spec fn increasing(names: Seq<Seq<char>>) -> bool {
    forall|i: int, j: int|
        0 <= i < j < names.len() ==> #[trigger] name_before(names[i], names[j])
}

/// `names` with `name` at its place in the order, if it is not there yet.
pub open spec fn with_name(names: Seq<Seq<char>>, name: Seq<char>) -> Seq<Seq<char>>
    decreases names.len(),
{
    if names.len() == 0 {
        seq![name]
    } else if names[0] == name {
        names
    } else if name_before(name, names[0]) {
        seq![name] + names
    } else {
        seq![names[0]] + with_name(names.skip(1), name)
    }
}

/// The names of a list in order, none of them twice.
pub open spec fn name_set(list: Seq<Seq<char>>) -> Seq<Seq<char>>
    decreases list.len(),
{
    if list.len() == 0 {
        seq![]
    } else {
        with_name(name_set(list.drop_last()), list.last())
    }
}

/// Where `name` stands in `names`, or where it would have to stand.
pub open spec fn is_place(names: Seq<Seq<char>>, name: Seq<char>, found: bool, at: int) -> bool {
    &&& 0 <= at <= names.len()
    &&& found ==> at < names.len() && names[at] == name
    &&& !found ==> !names.contains(name)
    &&& forall|j: int| 0 <= j < at ==> #[trigger] name_before(names[j], name)
    &&& forall|j: int|
        at <= j < names.len() && !(found && j == at) ==> #[trigger] name_before(name, names[j])
}

/// Putting a name in order, by the place that it takes.
proof fn lemma_with_name_at(names: Seq<Seq<char>>, name: Seq<char>, found: bool, at: int)
    requires
        is_place(names, name, found, at),
    ensures
        with_name(names, name) == if found {
            names
        } else {
            names.insert(at, name)
        },
    decreases names.len(),
{
    if names.len() == 0 {
        assert(names.insert(0, name) =~= seq![name]);
    } else if at == 0 {
        if found {
        } else {
            assert(name_before(name, names[0]));
            assert(names.contains(names[0]));
            assert(names.insert(0, name) =~= seq![name] + names);
        }
    } else {
        assert(name_before(names[0], name));
        lemma_irreflexive(name);
        if name_before(name, names[0]) {
            lemma_transitive(name, names[0], name);
        }
        let rest = names.skip(1);
        assert forall|j: int| 0 <= j < at - 1 implies #[trigger] name_before(rest[j], name) by {
            assert(name_before(names[j + 1], name));
        }
        assert forall|j: int|
            at - 1 <= j < rest.len() && !(found && j == at - 1) implies #[trigger] name_before(
            name,
            rest[j],
        ) by {
            assert(name_before(name, names[j + 1]));
        }
        if !found && rest.contains(name) {
            let k = choose|k: int| 0 <= k < rest.len() && rest[k] == name;
            assert(names[k + 1] == name);
        }
        lemma_with_name_at(rest, name, found, at - 1);
        if found {
            assert(names =~= seq![names[0]] + rest);
        } else {
            assert(names.insert(at, name) =~= seq![names[0]] + rest.insert(at - 1, name));
        }
    }
}

/// Putting a name in order keeps the order, adds the name and nothing else.
pub proof fn lemma_with_name(names: Seq<Seq<char>>, name: Seq<char>)
    requires
        increasing(names),
    ensures
        increasing(with_name(names, name)),
        forall|n: Seq<char>| #[trigger]
            with_name(names, name).contains(n) <==> names.contains(n) || n == name,
    decreases names.len(),
{
    let res = with_name(names, name);
    if names.len() == 0 {
        assert(res[0] == name);
    } else if names[0] == name {
        assert(names.contains(name));
    } else if name_before(name, names[0]) {
        assert forall|i: int, j: int| 0 <= i < j < res.len() implies #[trigger] name_before(
            res[i],
            res[j],
        ) by {
            if i == 0 && j > 1 {
                assert(name_before(names[0], names[j - 1]));
                lemma_transitive(name, names[0], names[j - 1]);
            } else if i > 0 {
                assert(name_before(names[i - 1], names[j - 1]));
            }
        }
        assert(res[0] == name);
        assert forall|n: Seq<char>| #[trigger] res.contains(n) <==> names.contains(n) || n
            == name by {
            if names.contains(n) {
                let k = choose|k: int| 0 <= k < names.len() && names[k] == n;
                assert(res[k + 1] == n);
            }
            if res.contains(n) {
                let k = choose|k: int| 0 <= k < res.len() && res[k] == n;
                if k > 0 {
                    assert(names[k - 1] == n);
                }
            }
        }
    } else {
        let rest = names.skip(1);
        assert forall|i: int, j: int| 0 <= i < j < rest.len() implies #[trigger] name_before(
            rest[i],
            rest[j],
        ) by {
            assert(name_before(names[i + 1], names[j + 1]));
        }
        lemma_with_name(rest, name);
        let tail = with_name(rest, name);
        lemma_total(name, names[0]);
        assert forall|i: int, j: int| 0 <= i < j < res.len() implies #[trigger] name_before(
            res[i],
            res[j],
        ) by {
            if i == 0 {
                assert(tail.contains(tail[j - 1]));
                if tail[j - 1] != name {
                    let k = choose|k: int| 0 <= k < rest.len() && rest[k] == tail[j - 1];
                    assert(name_before(names[0], names[k + 1]));
                }
            } else {
                assert(name_before(tail[i - 1], tail[j - 1]));
            }
        }
        assert forall|n: Seq<char>| #[trigger] res.contains(n) <==> names.contains(n) || n
            == name by {
            if names.contains(n) {
                let k = choose|k: int| 0 <= k < names.len() && names[k] == n;
                if k == 0 {
                    assert(res[0] == n);
                } else {
                    assert(rest[k - 1] == n);
                }
            }
            if tail.contains(n) {
                let k = choose|k: int| 0 <= k < tail.len() && tail[k] == n;
                assert(res[k + 1] == n);
            }
            if res.contains(n) {
                let k = choose|k: int| 0 <= k < res.len() && res[k] == n;
                if k == 0 {
                    assert(names[0] == n);
                } else {
                    assert(tail[k - 1] == n);
                    if rest.contains(n) {
                        let m = choose|m: int| 0 <= m < rest.len() && rest[m] == n;
                        assert(names[m + 1] == n);
                    }
                }
            }
        }
    }
}

/// A set of names is in order, without repetition, and holds what the list
/// holds.
pub proof fn law_name_set(list: Seq<Seq<char>>)
    ensures
        increasing(name_set(list)),
        forall|n: Seq<char>| #[trigger] name_set(list).contains(n) <==> list.contains(n),
    decreases list.len(),
{
    if list.len() > 0 {
        let init = list.drop_last();
        law_name_set(init);
        lemma_with_name(name_set(init), list.last());
        assert forall|n: Seq<char>| #[trigger] name_set(list).contains(n) <==> list.contains(n) by {
            if list.contains(n) {
                let k = choose|k: int| 0 <= k < list.len() && list[k] == n;
                if k < init.len() {
                    assert(init[k] == n);
                }
            }
            if init.contains(n) {
                let k = choose|k: int| 0 <= k < init.len() && init[k] == n;
                assert(list[k] == n);
            }
        }
    }
}

proof fn lemma_with_name_len(names: Seq<Seq<char>>, name: Seq<char>)
    ensures
        with_name(names, name).len() <= names.len() + 1,
    decreases names.len(),
{
    if names.len() > 0 {
        lemma_with_name_len(names.skip(1), name);
    }
}

/// Names in order, without repetition, are no more than there were before.
pub proof fn law_name_set_len(list: Seq<Seq<char>>)
    ensures
        name_set(list).len() <= list.len(),
    decreases list.len(),
{
    if list.len() > 0 {
        law_name_set_len(list.drop_last());
        lemma_with_name_len(name_set(list.drop_last()), list.last());
    }
}

/// Two lists in order, without repetition, that hold the same names are the
/// same list.
pub proof fn law_order_unique(a: Seq<Seq<char>>, b: Seq<Seq<char>>)
    requires
        increasing(a),
        increasing(b),
        forall|n: Seq<char>| #[trigger] a.contains(n) <==> b.contains(n),
    ensures
        a == b,
    decreases a.len(),
{
    if a.len() == 0 {
        if b.len() > 0 {
            assert(b.contains(b[0]));
            assert(a.contains(b[0]));
        }
        assert(a =~= b);
    } else {
        assert(a.contains(a[0]));
        let k = choose|k: int| 0 <= k < b.len() && b[k] == a[0];
        assert(b.contains(b[0]));
        assert(a.contains(b[0]));
        let m = choose|m: int| 0 <= m < a.len() && a[m] == b[0];
        if k > 0 && m > 0 {
            assert(name_before(b[0], b[k]));
            assert(name_before(a[0], a[m]));
            lemma_transitive(a[0], b[0], a[0]);
            lemma_irreflexive(a[0]);
        }
        let x = a.skip(1);
        let y = b.skip(1);
        lemma_drop_first(a);
        lemma_drop_first(b);
        assert forall|n: Seq<char>| #[trigger] x.contains(n) <==> y.contains(n) by {
            assert(a.contains(n) <==> b.contains(n));
        }
        law_order_unique(x, y);
        assert(a =~= seq![a[0]] + x);
        assert(b =~= seq![b[0]] + y);
    }
}

proof fn lemma_drop_first(a: Seq<Seq<char>>)
    requires
        increasing(a),
        a.len() > 0,
    ensures
        increasing(a.skip(1)),
        forall|n: Seq<char>| #[trigger] a.skip(1).contains(n) <==> a.contains(n) && n != a[0],
{
    let x = a.skip(1);
    assert forall|i: int, j: int| 0 <= i < j < x.len() implies #[trigger] name_before(
        x[i],
        x[j],
    ) by {
        assert(name_before(a[i + 1], a[j + 1]));
    }
    assert forall|n: Seq<char>| #[trigger] x.contains(n) <==> a.contains(n) && n != a[0] by {
        if x.contains(n) {
            let k = choose|k: int| 0 <= k < x.len() && x[k] == n;
            assert(a[k + 1] == n);
            assert(name_before(a[0], a[k + 1]));
            lemma_irreflexive(n);
        }
        if a.contains(n) && n != a[0] {
            let k = choose|k: int| 0 <= k < a.len() && a[k] == n;
            assert(x[k - 1] == n);
        }
    }
}

/// Where a name stands in a list in order, or where it would have to stand.
fn search(names: &Vec<String>, name: &str) -> (res: (bool, usize))
    requires
        increasing(views(names@)),
    ensures
        is_place(views(names@), name@, res.0, res.1 as int),
{
    let ghost all = views(names@);
    let mut low: usize = 0;
    let mut high: usize = names.len();
    while low < high
        invariant
            low <= high <= names@.len(),
            all == views(names@),
            increasing(all),
            forall|j: int| 0 <= j < low ==> #[trigger] name_before(all[j], name@),
            forall|j: int| high <= j < all.len() ==> #[trigger] name_before(name@, all[j]),
        decreases high - low,
    {
        let mid = low + (high - low) / 2;
        match order(names[mid].as_str(), name) {
            NameOrder::Same => {
                proof {
                    assert(all[mid as int] == name@);
                    assert forall|j: int| 0 <= j < mid implies #[trigger] name_before(
                        all[j],
                        name@,
                    ) by {
                        assert(name_before(all[j], all[mid as int]));
                    }
                    assert forall|j: int|
                        mid <= j < all.len() && !(j == mid) implies #[trigger] name_before(
                        name@,
                        all[j],
                    ) by {
                        assert(name_before(all[mid as int], all[j]));
                    }
                }
                return (true, mid);
            },
            NameOrder::Before => {
                proof {
                    assert forall|j: int| 0 <= j < mid + 1 implies #[trigger] name_before(
                        all[j],
                        name@,
                    ) by {
                        if j < mid {
                            assert(name_before(all[j], all[mid as int]));
                            lemma_transitive(all[j], all[mid as int], name@);
                        }
                    }
                }
                low = mid + 1;
            },
            NameOrder::After => {
                proof {
                    assert forall|j: int| mid <= j < all.len() implies #[trigger] name_before(
                        name@,
                        all[j],
                    ) by {
                        if mid < j {
                            assert(name_before(all[mid as int], all[j]));
                            lemma_transitive(name@, all[mid as int], all[j]);
                        }
                    }
                }
                high = mid;
            },
        }
    }
    proof {
        if all.contains(name@) {
            let k = choose|k: int| 0 <= k < all.len() && all[k] == name@;
            lemma_irreflexive(name@);
            if k < low {
                assert(name_before(all[k], name@));
            } else {
                assert(name_before(name@, all[k]));
            }
        }
    }
    (false, low)
}

proof fn lemma_views_insert(v: Seq<String>, i: int, s: String)
    requires
        0 <= i <= v.len(),
    ensures
        views(v.insert(i, s)) == views(v).insert(i, s@),
{
    assert(views(v.insert(i, s)) =~= views(v).insert(i, s@));
}

proof fn lemma_insert_increasing(names: Seq<Seq<char>>, name: Seq<char>, at: int)
    requires
        increasing(names),
        is_place(names, name, false, at),
    ensures
        increasing(names.insert(at, name)),
{
    lemma_with_name_at(names, name, false, at);
    lemma_with_name(names, name);
}

/// A set of names. Its view lists them in order, none of them twice.
#[derive(Debug)]
pub struct NameSet {
    names: Vec<String>,
}

impl View for NameSet {
    type V = Seq<Seq<char>>;

    closed spec fn view(&self) -> Seq<Seq<char>> {
        views(self.names@)
    }
}

impl Default for NameSet {
    fn default() -> (res: NameSet)
        ensures
            res@ == Seq::<Seq<char>>::empty(),
    {
        NameSet::new()
    }
}

impl NameSet {
    #[verifier::type_invariant]
    spec fn in_order(self) -> bool {
        increasing(views(self.names@))
    }

    /// The empty set.
    pub fn new() -> (res: NameSet)
        ensures
            res@ == Seq::<Seq<char>>::empty(),
    {
        let res = NameSet { names: Vec::new() };
        assert(res@ =~= Seq::<Seq<char>>::empty());
        res
    }

    /// The set of the names in `list`.
    pub fn collect(list: &Vec<String>) -> (res: NameSet)
        ensures
            res@ == name_set(views(list@)),
            increasing(res@),
    {
        let mut res = NameSet::new();
        let mut i: usize = 0;
        assert(views(list@).take(0) =~= Seq::<Seq<char>>::empty());
        while i < list.len()
            invariant
                i <= list@.len(),
                res@ == name_set(views(list@).take(i as int)),
            decreases list@.len() - i,
        {
            assert(views(list@).take(i + 1).drop_last() =~= views(list@).take(i as int));
            res.insert(list[i].clone());
            i += 1;
        }
        assert(views(list@).take(i as int) =~= views(list@));
        proof {
            use_type_invariant(&res);
        }
        res
    }

    /// How many names the set holds.
    pub fn len(&self) -> (res: usize)
        ensures
            res == self@.len(),
    {
        self.names.len()
    }

    /// Whether the set holds no name.
    pub fn is_empty(&self) -> (res: bool)
        ensures
            res == (self@.len() == 0),
    {
        self.names.len() == 0
    }

    /// Whether the set holds `name`.
    pub fn contains(&self, name: &str) -> (res: bool)
        ensures
            res == self@.contains(name@),
    {
        proof {
            use_type_invariant(self);
        }
        search(&self.names, name).0
    }

    /// The name at a place of the order.
    pub fn at(&self, i: usize) -> (res: &String)
        requires
            i < self@.len(),
        ensures
            res@ == self@[i as int],
    {
        &self.names[i]
    }

    /// Adds `name`; tells whether it was not there before.
    pub fn insert(&mut self, name: String) -> (res: bool)
        ensures
            final(self)@ == with_name(old(self)@, name@),
            res == !old(self)@.contains(name@),
    {
        proof {
            use_type_invariant(&*self);
        }
        let (found, at) = search(&self.names, name.as_str());
        proof {
            lemma_with_name_at(self@, name@, found, at as int);
        }
        if found {
            return false;
        }
        let mut names: Vec<String> = Vec::new();
        std::mem::swap(&mut names, &mut self.names);
        proof {
            lemma_views_insert(names@, at as int, name);
            lemma_insert_increasing(views(names@), name@, at as int);
        }
        names.insert(at, name);
        self.names = names;
        true
    }

    /// The names in order.
    pub fn to_vec(&self) -> (res: Vec<String>)
        ensures
            views(res@) == self@,
            increasing(self@),
    {
        proof {
            use_type_invariant(self);
        }
        self.names.clone()
    }
}

/// A map from names. Its view is the map of the texts.
#[derive(Debug)]
pub struct NameMap<V> {
    keys: Vec<String>,
    values: Vec<V>,
}

/// The map that two lists of the same length give.
pub open spec fn paired<V>(keys: Seq<Seq<char>>, values: Seq<V>) -> Map<Seq<char>, V> {
    Map::new(|k: Seq<char>| keys.contains(k), |k: Seq<char>| values[keys.index_of(k)])
}

proof fn lemma_paired_at<V>(keys: Seq<Seq<char>>, values: Seq<V>, i: int)
    requires
        increasing(keys),
        keys.len() == values.len(),
        0 <= i < keys.len(),
    ensures
        paired(keys, values).contains_key(keys[i]),
        paired(keys, values)[keys[i]] == values[i],
{
    let j = keys.index_of(keys[i]);
    assert(keys.contains(keys[i]));
    lemma_irreflexive(keys[i]);
    if i < j {
        assert(name_before(keys[i], keys[j]));
    } else if j < i {
        assert(name_before(keys[j], keys[i]));
    }
}

proof fn lemma_paired_insert<V>(
    keys: Seq<Seq<char>>,
    values: Seq<V>,
    found: bool,
    at: int,
    key: Seq<char>,
    value: V,
)
    requires
        increasing(keys),
        keys.len() == values.len(),
        is_place(keys, key, found, at),
    ensures
        found ==> paired(keys, values.update(at, value)) == paired(keys, values).insert(key, value),
        !found ==> increasing(keys.insert(at, key)),
        !found ==> paired(keys.insert(at, key), values.insert(at, value)) == paired(
            keys,
            values,
        ).insert(key, value),
{
    let old_map = paired(keys, values);
    if found {
        let new_values = values.update(at, value);
        let new_map = paired(keys, new_values);
        assert forall|k: Seq<char>| #[trigger] new_map.contains_key(k) implies new_map[k]
            == old_map.insert(key, value)[k] by {
            let i = choose|i: int| 0 <= i < keys.len() && keys[i] == k;
            lemma_paired_at(keys, values, i);
            lemma_paired_at(keys, new_values, i);
            if i != at && k == key {
                lemma_irreflexive(key);
                if i < at {
                    assert(name_before(keys[i], keys[at]));
                } else {
                    assert(name_before(keys[at], keys[i]));
                }
            }
        }
        assert(keys.contains(key));
        assert(new_map =~= old_map.insert(key, value));
    } else {
        lemma_insert_increasing(keys, key, at);
        let new_keys = keys.insert(at, key);
        let new_values = values.insert(at, value);
        let new_map = paired(new_keys, new_values);
        assert forall|k: Seq<char>|
            #[trigger] new_map.contains_key(k) <==> old_map.insert(key, value).contains_key(k) by {
            if keys.contains(k) {
                let i = choose|i: int| 0 <= i < keys.len() && keys[i] == k;
                assert(new_keys[if i < at { i } else { i + 1 }] == k);
            }
            assert(new_keys[at] == key);
            if new_keys.contains(k) && k != key {
                let i = choose|i: int| 0 <= i < new_keys.len() && new_keys[i] == k;
                assert(keys[if i < at { i } else { i - 1 }] == k);
            }
        }
        assert forall|k: Seq<char>| #[trigger] new_map.contains_key(k) implies new_map[k]
            == old_map.insert(key, value)[k] by {
            let i = choose|i: int| 0 <= i < new_keys.len() && new_keys[i] == k;
            lemma_paired_at(new_keys, new_values, i);
            if i != at {
                let j = if i < at { i } else { i - 1 };
                assert(keys[j] == k);
                lemma_paired_at(keys, values, j);
                assert(keys.contains(k));
            }
        }
        assert(new_map =~= old_map.insert(key, value));
    }
}

proof fn lemma_paired_remove<V>(keys: Seq<Seq<char>>, values: Seq<V>, at: int)
    requires
        increasing(keys),
        keys.len() == values.len(),
        0 <= at < keys.len(),
    ensures
        increasing(keys.remove(at)),
        paired(keys.remove(at), values.remove(at)) == paired(keys, values).remove(keys[at]),
{
    let key = keys[at];
    let new_keys = keys.remove(at);
    let new_values = values.remove(at);
    assert forall|i: int, j: int| 0 <= i < j < new_keys.len() implies #[trigger] name_before(
        new_keys[i],
        new_keys[j],
    ) by {
        assert(name_before(
            keys[if i < at { i } else { i + 1 }],
            keys[if j < at { j } else { j + 1 }],
        ));
    }
    let old_map = paired(keys, values);
    let new_map = paired(new_keys, new_values);
    assert forall|k: Seq<char>|
        #[trigger] new_map.contains_key(k) <==> old_map.remove(key).contains_key(k) by {
        if keys.contains(k) && k != key {
            let i = choose|i: int| 0 <= i < keys.len() && keys[i] == k;
            assert(new_keys[if i < at { i } else { i - 1 }] == k);
        }
        if new_keys.contains(k) {
            let i = choose|i: int| 0 <= i < new_keys.len() && new_keys[i] == k;
            let j = if i < at { i } else { i + 1 };
            assert(keys[j] == k);
            lemma_irreflexive(key);
            if j < at {
                assert(name_before(keys[j], keys[at]));
            } else {
                assert(name_before(keys[at], keys[j]));
            }
        }
    }
    assert forall|k: Seq<char>| #[trigger] new_map.contains_key(k) implies new_map[k]
        == old_map.remove(key)[k] by {
        let i = choose|i: int| 0 <= i < new_keys.len() && new_keys[i] == k;
        lemma_paired_at(new_keys, new_values, i);
        let j = if i < at { i } else { i + 1 };
        lemma_paired_at(keys, values, j);
    }
    assert(new_map =~= old_map.remove(key));
}

impl<V> View for NameMap<V> {
    type V = Map<Seq<char>, V>;

    closed spec fn view(&self) -> Map<Seq<char>, V> {
        paired(views(self.keys@), self.values@)
    }
}

impl<V> Default for NameMap<V> {
    fn default() -> (res: NameMap<V>)
        ensures
            res@ == Map::<Seq<char>, V>::empty(),
    {
        NameMap::new()
    }
}

impl<V> NameMap<V> {
    #[verifier::type_invariant]
    spec fn in_order(self) -> bool {
        increasing(views(self.keys@)) && self.keys@.len() == self.values@.len()
    }

    /// The empty map.
    pub fn new() -> (res: NameMap<V>)
        ensures
            res@ == Map::<Seq<char>, V>::empty(),
    {
        let res = NameMap { keys: Vec::new(), values: Vec::new() };
        assert(res@ =~= Map::<Seq<char>, V>::empty());
        res
    }

    /// How many names the map holds.
    pub fn len(&self) -> (res: usize)
        ensures
            res == self@.dom().len(),
    {
        proof {
            use_type_invariant(self);
            lemma_increasing_count(views(self.keys@));
            assert(self@.dom() =~= views(self.keys@).to_set());
        }
        self.keys.len()
    }

    /// What the map holds for `key`.
    pub fn get(&self, key: &str) -> (res: Option<&V>)
        ensures
            match res {
                Some(v) => self@.contains_key(key@) && *v == self@[key@],
                None => !self@.contains_key(key@),
            },
    {
        proof {
            use_type_invariant(self);
        }
        let (found, at) = search(&self.keys, key);
        if found {
            proof {
                lemma_paired_at(views(self.keys@), self.values@, at as int);
            }
            Some(&self.values[at])
        } else {
            None
        }
    }

    /// Whether the map holds something for `key`.
    pub fn contains_key(&self, key: &str) -> (res: bool)
        ensures
            res == self@.contains_key(key@),
    {
        self.get(key).is_some()
    }

    /// Sets what the map holds for `key`.
    pub fn insert(&mut self, key: String, value: V)
        ensures
            final(self)@ == old(self)@.insert(key@, value),
    {
        proof {
            use_type_invariant(&*self);
        }
        let (found, at) = search(&self.keys, key.as_str());
        let mut map: NameMap<V> = NameMap::new();
        std::mem::swap(&mut map, self);
        let NameMap { mut keys, mut values } = map;
        proof {
            lemma_paired_insert(views(keys@), values@, found, at as int, key@, value);
            lemma_views_insert(keys@, at as int, key);
        }
        if found {
            values.set(at, value);
        } else {
            keys.insert(at, key);
            values.insert(at, value);
        }
        *self = NameMap { keys, values };
    }

    /// Takes `key` out of the map.
    pub fn remove(&mut self, key: &str)
        ensures
            final(self)@ == old(self)@.remove(key@),
    {
        proof {
            use_type_invariant(&*self);
        }
        let (found, at) = search(&self.keys, key);
        if found {
            let mut map: NameMap<V> = NameMap::new();
            std::mem::swap(&mut map, self);
            let NameMap { mut keys, mut values } = map;
            proof {
                lemma_paired_remove(views(keys@), values@, at as int);
                assert(views(keys@.remove(at as int)) =~= views(keys@).remove(at as int));
            }
            keys.remove(at);
            values.remove(at);
            *self = NameMap { keys, values };
        } else {
            assert(self@ =~= self@.remove(key@));
        }
    }
}

/// Names in order are as many as they are different names.
pub proof fn lemma_increasing_count(names: Seq<Seq<char>>)
    requires
        increasing(names),
    ensures
        names.to_set().len() == names.len(),
        names.to_set().finite(),
{
    assert(names.no_duplicates()) by {
        assert forall|i: int, j: int|
            0 <= i < names.len() && 0 <= j < names.len() && i != j implies names[i] != names[j] by {
            lemma_irreflexive(names[i]);
            if i < j {
                assert(name_before(names[i], names[j]));
            } else {
                assert(name_before(names[j], names[i]));
            }
        }
    }
    names.unique_seq_to_set();
}

impl<T> NameMap<Vec<T>> {
    /// Appends `item` to the list that the map holds for `key`, which starts
    /// empty.
    pub fn append(&mut self, key: &str, item: T)
        ensures
            final(self)@.dom() == old(self)@.dom().insert(key@),
            final(self)@[key@]@ == listed(old(self)@, key@).push(item),
            forall|k: Seq<char>|
                k != key@ && old(self)@.contains_key(k) ==> #[trigger] final(self)@[k] == old(
                    self,
                )@[k],
    {
        proof {
            use_type_invariant(&*self);
        }
        let (found, at) = search(&self.keys, key);
        let mut map: NameMap<Vec<T>> = NameMap::new();
        std::mem::swap(&mut map, self);
        let NameMap { mut keys, mut values } = map;
        if found {
            let ghost before = values@;
            proof {
                lemma_paired_at(views(keys@), before, at as int);
            }
            values[at].push(item);
            proof {
                lemma_paired_insert(views(keys@), before, found, at as int, key@, values@[at as int]);
                assert(values@ =~= before.update(at as int, values@[at as int]));
                assert(old(self)@.dom().insert(key@) =~= old(self)@.dom());
            }
        } else {
            let mut list: Vec<T> = Vec::new();
            list.push(item);
            let name = key.to_owned();
            proof {
                lemma_paired_insert(views(keys@), values@, found, at as int, key@, list);
                lemma_views_insert(keys@, at as int, name);
            }
            keys.insert(at, name);
            values.insert(at, list);
        }
        *self = NameMap { keys, values };
    }
}

/// The list that a map holds for `key`; empty where it holds none.
pub open spec fn listed<T>(map: Map<Seq<char>, Vec<T>>, key: Seq<char>) -> Seq<T> {
    if map.contains_key(key) {
        map[key]@
    } else {
        seq![]
    }
}

/// Byte strings are ordered by the first byte in which they differ; one that
/// goes on where the other ends comes after it.
pub proof fn law_byte_order(a: Seq<u8>, b: Seq<u8>, k: int)
    requires
        0 <= k <= a.len() && k <= b.len(),
        forall|j: int| 0 <= j < k ==> a[j] == b[j],
    ensures
        k < a.len() && k < b.len() && a[k] != b[k] ==> (bytes_before(a, b) <==> a[k] < b[k]),
        k == a.len() && k < b.len() ==> bytes_before(a, b),
        k == b.len() ==> !bytes_before(a, b),
    decreases k,
{
    if k > 0 {
        let x = a.skip(1);
        let y = b.skip(1);
        assert forall|j: int| 0 <= j < k - 1 implies x[j] == y[j] by {
            assert(a[j + 1] == b[j + 1]);
        }
        law_byte_order(x, y, k - 1);
        assert(a[0] == b[0]);
    }
}

} // verus!
