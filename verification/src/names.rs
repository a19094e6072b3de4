use vstd::prelude::*;
use vstd::string::StringExecFns;

verus! {

/// The names held by a vector, as sequences of characters.
pub open spec fn names_of(v: Seq<String>) -> Seq<Seq<char>> {
    Seq::new(v.len(), |i: int| v[i]@)
}

/// The order of package names: character by character, a proper prefix
/// first. This is the order in which `String` values compare.
pub open spec fn name_le(a: Seq<char>, b: Seq<char>) -> bool
    decreases a.len(),
{
    if a.len() == 0 {
        true
    } else if b.len() == 0 {
        false
    } else if a[0] != b[0] {
        (a[0] as u32) < (b[0] as u32)
    } else {
        name_le(a.drop_first(), b.drop_first())
    }
}

/// `a` comes strictly before `b` in the order of names.
pub open spec fn name_lt(a: Seq<char>, b: Seq<char>) -> bool {
    a != b && name_le(a, b)
}

/// The names stand in strictly ascending order: in particular, none occurs
/// twice.
pub open spec fn ascending(names: Seq<Seq<char>>) -> bool {
    forall|i: int, j: int| 0 <= i < j < names.len() ==> name_lt(#[trigger] names[i], #[trigger] names[j])
}

/// Where `name` stands in an ascending list, or where it would be put:
/// before `pos` every name comes before it, from `pos` on none does.
pub open spec fn is_slot(names: Seq<Seq<char>>, name: Seq<char>, pos: int) -> bool {
    &&& 0 <= pos <= names.len()
    &&& forall|i: int| 0 <= i < pos ==> name_lt(#[trigger] names[i], name)
    &&& forall|i: int| pos <= i < names.len() ==> name_le(name, #[trigger] names[i])
}

/// The names of a set in ascending order.
pub open spec fn in_order(names: Set<Seq<char>>) -> Seq<Seq<char>> {
    choose|list: Seq<Seq<char>>| ascending(list) && list.to_set() == names
}

/// The names, each followed by the next after one space.
pub open spec fn joined(names: Seq<Seq<char>>) -> Seq<char>
    decreases names.len(),
{
    if names.len() == 0 {
        Seq::empty()
    } else if names.len() == 1 {
        names[0]
    } else {
        joined(names.drop_last()) + seq![' '] + names.last()
    }
}

/// Every name stands at or before itself.
pub proof fn lemma_name_le_reflexive(a: Seq<char>)
    ensures
        name_le(a, a),
    decreases a.len(),
{
    if a.len() > 0 {
        lemma_name_le_reflexive(a.drop_first());
    }
}

/// Two names that stand at or before each other are one name.
pub proof fn lemma_name_le_antisymmetric(a: Seq<char>, b: Seq<char>)
    requires
        name_le(a, b),
        name_le(b, a),
    ensures
        a == b,
    decreases a.len(),
{
    if a.len() == 0 || b.len() == 0 {
        assert(a =~= b);
    } else {
        assert(a[0] == b[0]);
        lemma_name_le_antisymmetric(a.drop_first(), b.drop_first());
        assert(a =~= seq![a[0]] + a.drop_first());
        assert(b =~= seq![b[0]] + b.drop_first());
    }
}

/// The order of names is transitive.
pub proof fn lemma_name_le_transitive(a: Seq<char>, b: Seq<char>, c: Seq<char>)
    requires
        name_le(a, b),
        name_le(b, c),
    ensures
        name_le(a, c),
    decreases a.len(),
{
    if a.len() > 0 && b.len() > 0 && c.len() > 0 {
        if a[0] == b[0] && b[0] == c[0] {
            lemma_name_le_transitive(a.drop_first(), b.drop_first(), c.drop_first());
        }
    }
}

/// Distinct characters have distinct code points.
proof fn lemma_distinct_chars(x: char, y: char)
    requires
        x != y,
    ensures
        (x as u32) != (y as u32),
{
    assert((x as u32) as char == x);
    assert((y as u32) as char == y);
}

/// Of two names one stands at or before the other.
pub proof fn lemma_name_le_total(a: Seq<char>, b: Seq<char>)
    ensures
        name_le(a, b) || name_le(b, a),
    decreases a.len(),
{
    if a.len() > 0 && b.len() > 0 {
        if a[0] == b[0] {
            lemma_name_le_total(a.drop_first(), b.drop_first());
        } else {
            lemma_distinct_chars(a[0], b[0]);
        }
    } else if a.len() == 0 {
        assert(name_le(a, b));
    } else {
        assert(name_le(b, a));
    }
}

/// A chain of names of which two differ leads strictly upwards.
pub proof fn lemma_name_lt_transitive(a: Seq<char>, b: Seq<char>, c: Seq<char>)
    requires
        name_le(a, b),
        name_le(b, c),
        a != b || b != c,
    ensures
        name_lt(a, c),
{
    lemma_name_le_transitive(a, b, c);
    if a == c {
        lemma_name_le_antisymmetric(a, b);
    }
}

/// The first `k + 1` names of a list are the first `k` and the name at
/// `k`.
pub proof fn lemma_take_next(names: Seq<Seq<char>>, k: int)
    requires
        0 <= k < names.len(),
    ensures
        names.take(k + 1) == names.take(k).push(names[k]),
        forall|name: Seq<char>|
            #![trigger names.take(k + 1).contains(name)]
            #![trigger names.take(k).contains(name)]
            names.take(k + 1).contains(name) <==> names.take(k).contains(name) || name == names[k],
        names.take(k + 1).contains(names[k]),
{
    let done = names.take(k);
    let next = names.take(k + 1);
    assert(next =~= done.push(names[k]));
    assert(next[k] == names[k]);
    assert forall|name: Seq<char>| next.contains(name) <==> done.contains(name) || name
        == names[k] by {
        if done.contains(name) {
            let i = choose|i: int| 0 <= i < done.len() && done[i] == name;
            assert(next[i] == name);
        }
        if name == names[k] {
            assert(next[k] == name);
        }
    }
}

/// An ascending list holds no name twice.
pub proof fn lemma_ascending_no_duplicates(names: Seq<Seq<char>>)
    requires
        ascending(names),
    ensures
        names.no_duplicates(),
{
    assert forall|i: int, j: int| 0 <= i < names.len() && 0 <= j < names.len() && i != j implies names[i]
        != names[j] by {
        if i < j {
            assert(name_lt(names[i], names[j]));
        } else {
            assert(name_lt(names[j], names[i]));
        }
    }
}

/// In an ascending list a name can only stand at its slot.
pub proof fn lemma_slot_holds_name(names: Seq<Seq<char>>, name: Seq<char>, pos: int)
    requires
        ascending(names),
        is_slot(names, name, pos),
    ensures
        names.contains(name) <==> (pos < names.len() && names[pos] == name),
{
    if names.contains(name) {
        let k = choose|k: int| 0 <= k < names.len() && names[k] == name;
        if k > pos {
            assert(name_lt(names[pos], names[k]));
            lemma_name_le_antisymmetric(names[pos], name);
        }
    }
}

/// Putting a new name at its slot keeps the list ascending.
pub proof fn lemma_insert_at_slot(names: Seq<Seq<char>>, name: Seq<char>, pos: int)
    requires
        ascending(names),
        is_slot(names, name, pos),
        !names.contains(name),
    ensures
        ascending(names.insert(pos, name)),
        names.insert(pos, name).to_set() == names.to_set().insert(name),
{
    let after = names.insert(pos, name);
    assert forall|i: int, j: int| 0 <= i < j < after.len() implies name_lt(
        #[trigger] after[i],
        #[trigger] after[j],
    ) by {
        if j < pos {
            assert(name_lt(names[i], names[j]));
        } else if j == pos {
            assert(name_lt(names[i], name));
        } else if i == pos {
            assert(names.contains(names[j - 1]));
            assert(name_le(name, names[j - 1]));
        } else if i > pos {
            assert(name_lt(names[i - 1], names[j - 1]));
        } else {
            assert(name_lt(names[i], names[j - 1]));
        }
    }
    assert forall|x: Seq<char>| after.to_set().contains(x) <==> names.to_set().insert(
        name,
    ).contains(x) by {
        if after.to_set().contains(x) {
            let k = choose|k: int| 0 <= k < after.len() && after[k] == x;
            if k < pos {
                assert(names[k] == x);
            } else if k > pos {
                assert(names[k - 1] == x);
            }
        }
        if names.to_set().contains(x) {
            let k = choose|k: int| 0 <= k < names.len() && names[k] == x;
            if k < pos {
                assert(after[k] == x);
            } else {
                assert(after[k + 1] == x);
            }
        }
        if x == name {
            assert(after[pos] == x);
        }
    }
    assert(after.to_set() =~= names.to_set().insert(name));
}

/// Two ascending lists of the same names are the same list.
pub proof fn lemma_ascending_unique(a: Seq<Seq<char>>, b: Seq<Seq<char>>)
    requires
        ascending(a),
        ascending(b),
        a.to_set() == b.to_set(),
    ensures
        a == b,
    decreases a.len(),
{
    lemma_ascending_no_duplicates(a);
    lemma_ascending_no_duplicates(b);
    a.unique_seq_to_set();
    b.unique_seq_to_set();
    if a.len() == 0 {
        assert(a =~= b);
    } else {
        let x = a.last();
        let y = b.last();
        assert(a.to_set().contains(x));
        assert(b.to_set().contains(y));
        assert(b.contains(x));
        assert(a.contains(y));
        let i = choose|i: int| 0 <= i < b.len() && b[i] == x;
        let j = choose|j: int| 0 <= j < a.len() && a[j] == y;
        if x != y {
            assert(name_lt(b[i], b[b.len() - 1]));
            assert(name_lt(a[j], a[a.len() - 1]));
            lemma_name_le_antisymmetric(x, y);
        }
        let a0 = a.drop_last();
        let b0 = b.drop_last();
        assert forall|n: Seq<char>| a0.to_set().contains(n) <==> b0.to_set().contains(n) by {
            if a0.contains(n) {
                let k = choose|k: int| 0 <= k < a0.len() && a0[k] == n;
                assert(a[k] == n);
                assert(name_lt(a[k], a[a.len() - 1]));
                assert(b.to_set().contains(n));
                let m = choose|m: int| 0 <= m < b.len() && b[m] == n;
                assert(b0[m] == n);
            }
            if b0.contains(n) {
                let k = choose|k: int| 0 <= k < b0.len() && b0[k] == n;
                assert(b[k] == n);
                assert(name_lt(b[k], b[b.len() - 1]));
                assert(a.to_set().contains(n));
                let m = choose|m: int| 0 <= m < a.len() && a[m] == n;
                assert(a0[m] == n);
            }
        }
        assert(a0.to_set() =~= b0.to_set());
        assert(ascending(a0)) by {
            assert forall|p: int, q: int| 0 <= p < q < a0.len() implies name_lt(
                #[trigger] a0[p],
                #[trigger] a0[q],
            ) by {
                assert(name_lt(a[p], a[q]));
            }
        }
        assert(ascending(b0)) by {
            assert forall|p: int, q: int| 0 <= p < q < b0.len() implies name_lt(
                #[trigger] b0[p],
                #[trigger] b0[q],
            ) by {
                assert(name_lt(b[p], b[q]));
            }
        }
        lemma_ascending_unique(a0, b0);
        assert(a =~= a0.push(x));
        assert(b =~= b0.push(y));
    }
}

/// An ascending list is its own names in ascending order.
pub proof fn lemma_in_order(list: Seq<Seq<char>>)
    requires
        ascending(list),
    ensures
        in_order(list.to_set()) == list,
{
    let other = in_order(list.to_set());
    assert(ascending(other) && other.to_set() == list.to_set());
    lemma_ascending_unique(other, list);
}

/// Compares two names with `<` of `String`, which orders strings by their
/// bytes and thereby by their characters: the result says whether `a` comes
/// strictly before `b`.
#[verifier::external_body]
pub(crate) fn name_before(a: &String, b: &String) -> (before: bool)
    ensures
        before == name_lt(a@, b@),
{
    a < b
}

/// The position of the first name that does not come before `name`.
pub fn lower_bound(names: &Vec<String>, name: &String) -> (pos: usize)
    requires
        ascending(names_of(names@)),
    ensures
        is_slot(names_of(names@), name@, pos as int),
{
    let mut lo: usize = 0;
    let mut hi: usize = names.len();
    while lo < hi
        invariant
            lo <= hi <= names.len(),
            ascending(names_of(names@)),
            forall|i: int| 0 <= i < lo ==> name_lt(#[trigger] names[i]@, name@),
            forall|i: int| hi <= i < names.len() ==> name_le(name@, #[trigger] names[i]@),
        decreases hi - lo,
    {
        let mid: usize = lo + (hi - lo) / 2;
        if name_before(&names[mid], name) {
            assert forall|i: int| 0 <= i < mid + 1 implies name_lt(#[trigger] names[i]@, name@) by {
                if i < mid {
                    assert(name_lt(names_of(names@)[i], names_of(names@)[mid as int]));
                    lemma_name_lt_transitive(names[i]@, names[mid as int]@, name@);
                }
            }
            lo = mid + 1;
        } else {
            assert forall|i: int| mid <= i < names.len() implies name_le(
                name@,
                #[trigger] names[i]@,
            ) by {
                lemma_name_le_total(names[mid as int]@, name@);
                lemma_name_le_reflexive(name@);
                if i > mid {
                    assert(name_lt(names_of(names@)[mid as int], names_of(names@)[i]));
                    lemma_name_le_transitive(name@, names[mid as int]@, names[i]@);
                }
            }
            hi = mid;
        }
    }
    lo
}

/// Joins the names with single spaces.
pub fn join_names(names: &Vec<String>) -> (text: String)
    ensures
        text@ == joined(names_of(names@)),
{
    let mut text = String::new();
    let mut i: usize = 0;
    let ghost all = names_of(names@);
    proof {
        reveal_strlit(" ");
        assert(all.take(0) =~= Seq::<Seq<char>>::empty());
    }
    while i < names.len()
        invariant
            i <= names.len(),
            all == names_of(names@),
            text@ == joined(all.take(i as int)),
            " "@ == seq![' '],
        decreases names.len() - i,
    {
        proof {
            assert(all.take(i + 1).drop_last() =~= all.take(i as int));
            assert(all.take(i + 1).last() == names[i as int]@);
            if i == 0 {
                assert(all.take(1)[0] == names[0]@);
                assert(Seq::<char>::empty() + names[0]@ =~= names[0]@);
            }
        }
        if i > 0 {
            text.append(" ");
        }
        text.append(names[i].as_str());
        i += 1;
    }
    assert(all.take(names.len() as int) =~= all);
    text
}

} // verus!
