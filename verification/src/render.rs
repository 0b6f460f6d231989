//! Text for people: numbers in decimal, lists with separators, upper case.

use vstd::prelude::*;
use vstd::string::*;

use crate::names::views;
use crate::text::{has_prefix, has_suffix};

verus! {

/// The decimal digit of `d`.
pub open spec fn digit(d: nat) -> char {
    ('0' as nat + d) as char
}

/// `n` in decimal.
pub open spec fn decimal(n: nat) -> Seq<char>
    decreases n,
{
    if n < 10 {
        seq![digit(n)]
    } else {
        decimal(n / 10).push(digit(n % 10))
    }
}

/// `n` in decimal.
pub fn number(n: usize) -> (res: String)
    ensures
        res@ == decimal(n as nat),
    decreases n,
{
    let last = (n % 10) as u8;
    let c = (48u8 + last) as char;
    if n < 10 {
        let mut res = String::new();
        res.push(c);
        assert(res@ =~= decimal(n as nat));
        res
    } else {
        let mut res = number(n / 10);
        res.push(c);
        res
    }
}

/// The items of a list with `sep` between them.
pub open spec fn joined(list: Seq<Seq<char>>, sep: Seq<char>) -> Seq<char>
    decreases list.len(),
{
    if list.len() == 0 {
        seq![]
    } else if list.len() == 1 {
        list[0]
    } else {
        joined(list.drop_last(), sep) + sep + list.last()
    }
}

/// The first `limit` items of a list with `sep` between them.
pub fn join_first(list: &Vec<String>, limit: usize, sep: &str) -> (res: String)
    ensures
        res@ == joined(first(views(list@), limit as nat), sep@),
{
    let n = if list.len() < limit {
        list.len()
    } else {
        limit
    };
    let ghost all = views(list@);
    let mut res = String::new();
    let mut i: usize = 0;
    assert(all.take(0) =~= Seq::<Seq<char>>::empty());
    while i < n
        invariant
            i <= n <= list@.len(),
            all == views(list@),
            res@ == joined(all.take(i as int), sep@),
        decreases n - i,
    {
        proof {
            assert(all.take(i + 1).drop_last() =~= all.take(i as int));
            assert(all[i as int] == list@[i as int]@);
        }
        if i > 0 {
            res.append(sep);
            res.append(list[i].as_str());
        } else {
            assert(res@ =~= Seq::<char>::empty());
            res.append(list[i].as_str());
            assert(res@ =~= all[0]);
        }
        i += 1;
    }
    res
}

/// The first `limit` items of a list, or all of them where there are fewer.
pub open spec fn first<A>(list: Seq<A>, limit: nat) -> Seq<A> {
    list.take(
        if list.len() < limit {
            list.len() as int
        } else {
            limit as int
        },
    )
}

/// The items of a list with `sep` between them.
pub fn join(list: &Vec<String>, sep: &str) -> (res: String)
    ensures
        res@ == joined(views(list@), sep@),
{
    let res = join_first(list, list.len(), sep);
    assert(first(views(list@), list@.len()) =~= views(list@));
    res
}

/// What `str::to_uppercase` makes of a text.
pub uninterp spec fn uppercase(s: Seq<char>) -> Seq<char>;

/// `str::to_uppercase`: the text in upper case, by the mapping of Unicode,
/// which depends on the text alone.
#[verifier::external_body]
pub(crate) fn to_uppercase(s: &str) -> (res: String)
    ensures
        res@ == uppercase(s@),
{
    s.to_uppercase()
}

// ---- Laws -------------------------------------------------------------------

/// The number that a text of digits stands for.
pub open spec fn value_of(s: Seq<char>) -> nat
    decreases s.len(),
{
    if s.len() == 0 {
        0
    } else {
        10 * value_of(s.drop_last()) + (s.last() as nat - '0' as nat) as nat
    }
}

/// A number in decimal is digits alone, stands for the number, and has no zero
/// in front of other digits.
pub proof fn law_decimal(n: nat)
    ensures
        decimal(n).len() > 0,
        forall|i: int| 0 <= i < decimal(n).len() ==> '0' <= #[trigger] decimal(n)[i] <= '9',
        value_of(decimal(n)) == n,
        decimal(n)[0] == '0' ==> n == 0,
    decreases n,
{
    reveal_with_fuel(value_of, 2);
    if n < 10 {
        assert(decimal(n) =~= seq![digit(n)]);
        assert(decimal(n).drop_last() =~= seq![]);
    } else {
        law_decimal(n / 10);
        let init = decimal(n / 10);
        let all = decimal(n);
        assert(all.drop_last() =~= init);
        assert forall|i: int| 0 <= i < all.len() implies '0' <= #[trigger] all[i] <= '9' by {
            if i < init.len() {
                assert(all[i] == init[i]);
            }
        }
        assert(all[0] == init[0]);
    }
}

/// Lists are joined part by part, with the separator between the parts.
pub proof fn law_joined(a: Seq<Seq<char>>, b: Seq<Seq<char>>, sep: Seq<char>)
    requires
        a.len() > 0,
        b.len() > 0,
    ensures
        joined(a + b, sep) == joined(a, sep) + sep + joined(b, sep),
    decreases b.len(),
{
    let all = a + b;
    assert(all.drop_last() =~= a + b.drop_last());
    assert(all.last() == b.last());
    if b.len() == 1 {
        assert(a + b.drop_last() =~= a);
        assert(joined(b, sep) == b[0]);
    } else {
        law_joined(a, b.drop_last(), sep);
        assert(joined(all, sep) =~= joined(a, sep) + sep + joined(b, sep));
    }
}

/// A list of one is joined to its item, one of none to nothing.
pub proof fn law_joined_single(item: Seq<char>, sep: Seq<char>)
    ensures
        joined(seq![item], sep) == item,
        joined(Seq::<Seq<char>>::empty(), sep) == Seq::<char>::empty(),
{
}

/// Every item of a joined list stands between the separator and its ends: in
/// the text with the separator put around it.
pub proof fn lemma_joined_item(list: Seq<Seq<char>>, sep: Seq<char>, i: int)
    requires
        0 <= i < list.len(),
    ensures
        exists|a: Seq<char>, b: Seq<char>| #[trigger]
            (a + list[i] + b) == joined(list, sep) && (i == 0 ==> a.len() == 0) && (i > 0
                ==> has_suffix(a, sep)) && (i == list.len() - 1 ==> b.len() == 0) && (i
                < list.len() - 1 ==> has_prefix(b, sep)),
    decreases list.len(),
{
    let all = joined(list, sep);
    if list.len() == 1 {
        let none = Seq::<char>::empty();
        assert(none + list[i] + none =~= all);
    } else if i == list.len() - 1 {
        let a = joined(list.drop_last(), sep) + sep;
        let none = Seq::<char>::empty();
        assert(a.skip(a.len() - sep.len()) =~= sep);
        assert(a + list[i] + none =~= all);
    } else {
        lemma_joined_item(list.drop_last(), sep, i);
        let init = list.drop_last();
        let (a, b) = choose|a: Seq<char>, b: Seq<char>| #[trigger]
            (a + init[i] + b) == joined(init, sep) && (i == 0 ==> a.len() == 0) && (i > 0
                ==> has_suffix(a, sep)) && (i == init.len() - 1 ==> b.len() == 0) && (i
                < init.len() - 1 ==> has_prefix(b, sep));
        let c = b + sep + list.last();
        assert(init[i] == list[i]);
        assert(a + list[i] + c =~= all);
        if b.len() == 0 || i == init.len() - 1 {
            assert(c.take(sep.len() as int) =~= sep);
        } else {
            assert(c.take(sep.len() as int) =~= b.take(sep.len() as int));
        }
    }
}

/// The first items of a list are those up to the limit, or all of them.
pub proof fn law_first<A>(list: Seq<A>, limit: nat)
    ensures
        first(list, limit).len() <= limit,
        first(list, limit).len() <= list.len(),
        first(list, limit).len() == limit || first(list, limit).len() == list.len(),
        forall|i: int|
            0 <= i < first(list, limit).len() ==> #[trigger] first(list, limit)[i] == list[i],
{
}

} // verus!
