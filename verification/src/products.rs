//! Which files of a product are carried over, and which products there are.

use crate::arguments::wants;
use crate::text;
use crate::text::{parse_number, same, split_once};
use vstd::prelude::*;
use vstd::string::*;

verus! {

/// The first directory of a path, or all of it where it has none.
pub open spec fn first_part(path: Seq<char>) -> Seq<char> {
    match text::first_of(path, '/', '/', 0) {
        Some(at) => path.take(at),
        None => path,
    }
}

/// The level a path belongs to: the directory it starts with, read as a number.
pub open spec fn level_in(path: Seq<char>) -> Option<u32> {
    match text::number_spelled(first_part(path)) {
        Ok(level) => Some(level),
        Err(_) => None,
    }
}

/// Which level a tile's path belongs to, or `None` for anything that is not
/// under a level directory.
pub fn level_of(relative: &str) -> (level: Option<u32>)
    ensures
        level == level_in(relative@),
{
    let part: &str = match split_once(relative, '/', '/') {
        Some((before, _)) => before,
        None => relative,
    };
    match parse_number(part) {
        Ok(level) => Some(level),
        Err(_) => None,
    }
}

/// Whether a file is carried over when everything finer than `base` is left
/// behind. The manifest is not: one that describes the copy is written instead.
pub open spec fn carried(path: Seq<char>, base: u32, manifest: Seq<char>) -> bool {
    path != manifest && match level_in(path) {
        Some(level) => level >= base,
        None => true,
    }
}

/// Whether a file is carried over.
pub fn copies(relative: &str, base: u32, manifest: &str) -> (yes: bool)
    ensures
        yes == carried(relative@, base, manifest@),
{
    if same(relative, manifest) {
        return false;
    }
    match level_of(relative) {
        Some(level) => level >= base,
        None => true,
    }
}

/// Whether one name sorts no later than another, character by character.
pub open spec fn no_later(a: Seq<char>, b: Seq<char>) -> bool
    decreases a.len(),
{
    if a.len() == 0 {
        true
    } else if b.len() == 0 {
        false
    } else if a.first() != b.first() {
        a.first() < b.first()
    } else {
        no_later(a.drop_first(), b.drop_first())
    }
}

/// Whether one name sorts no later than another.
pub fn sorts_first(a: &str, b: &str) -> (yes: bool)
    ensures
        yes == no_later(a@, b@),
{
    let (m, n): (usize, usize) = (a.unicode_len(), b.unicode_len());
    let mut i: usize = 0;
    assert(a@.skip(0) =~= a@ && b@.skip(0) =~= b@);
    while i < m && i < n
        invariant
            m == a@.len(),
            n == b@.len(),
            i <= m,
            i <= n,
            no_later(a@, b@) == no_later(a@.skip(i as int), b@.skip(i as int)),
        decreases m - i,
    {
        let (c, d): (char, char) = (a.get_char(i), b.get_char(i));
        if c != d {
            return c < d;
        }
        assert(a@.skip(i as int).drop_first() =~= a@.skip(i + 1));
        assert(b@.skip(i as int).drop_first() =~= b@.skip(i + 1));
        i = i + 1;
    }
    i == m
}

proof fn lemma_no_later_either_way(a: Seq<char>, b: Seq<char>)
    ensures
        no_later(a, b) || no_later(b, a),
    decreases a.len(),
{
    if a.len() > 0 && b.len() > 0 && a.first() == b.first() {
        lemma_no_later_either_way(a.drop_first(), b.drop_first());
    }
}

proof fn lemma_no_later_chains(a: Seq<char>, b: Seq<char>, c: Seq<char>)
    requires
        no_later(a, b),
        no_later(b, c),
    ensures
        no_later(a, c),
    decreases a.len(),
{
    if a.len() > 0 && b.len() > 0 && c.len() > 0 && a.first() == b.first() && b.first() == c.first() {
        lemma_no_later_chains(a.drop_first(), b.drop_first(), c.drop_first());
    }
}

/// Names that each sort no later than the other are one name.
pub proof fn the_order_of_names_tells_them_apart(a: Seq<char>, b: Seq<char>)
    requires
        no_later(a, b),
        no_later(b, a),
    ensures
        a =~= b,
    decreases a.len(),
{
    if a.len() > 0 && b.len() > 0 {
        the_order_of_names_tells_them_apart(a.drop_first(), b.drop_first());
        assert(a =~= seq![a.first()] + a.drop_first());
        assert(b =~= seq![b.first()] + b.drop_first());
    }
}

/// Whether a list of places runs through names in order.
pub open spec fn in_order(names: Seq<String>, places: Seq<usize>) -> bool {
    forall|i: int, j: int|
        #![trigger places[i], places[j]]
        0 <= i < j < places.len() ==> no_later(names[places[i] as int]@, names[places[j] as int]@)
}

/// Whether a product is among those wanted: all of them are, where none is
/// named.
pub open spec fn is_wanted(wanted: Seq<String>, name: Seq<char>) -> bool {
    wanted.len() == 0 || exists|i: int| 0 <= i < wanted.len() && #[trigger] wanted[i]@ == name
}

/// Picks the products that are wanted, in the order of their names.
pub fn select(names: &Vec<String>, wanted: &Vec<String>) -> (places: Vec<usize>)
    ensures
        in_order(names@, places@),
        places@.no_duplicates(),
        forall|k: usize|
            #[trigger] places@.contains(k) <==> k < names@.len() && is_wanted(wanted@, names@[k as int]@),
{
    let mut places: Vec<usize> = Vec::new();
    let mut k: usize = 0;
    while k < names.len()
        invariant
            k <= names@.len(),
            in_order(names@, places@),
            places@.no_duplicates(),
            forall|m: usize|
                #[trigger] places@.contains(m) <==> m < k && is_wanted(wanted@, names@[m as int]@),
            forall|i: int| 0 <= i < places@.len() ==> #[trigger] places@[i] < k,
        decreases names@.len() - k,
    {
        if wants(wanted, names[k].as_str()) {
            let ghost before = places@;
            let at: usize = slot_for(names, &places, k);
            places.insert(at, k);
            proof {
                assert(places@ =~= before.insert(at as int, k));
                lemma_inserted(names@, before, at as int, k);
                assert forall|m: usize| #[trigger] places@.contains(m) <==> m < k + 1 && is_wanted(
                    wanted@,
                    names@[m as int]@,
                ) by {
                    assert(before.contains(m) <==> m < k && is_wanted(wanted@, names@[m as int]@));
                }
            }
        }
        k = k + 1;
    }
    places
}

/// Where a name goes among names in order, behind its equals.
fn slot_for(names: &Vec<String>, places: &Vec<usize>, name: usize) -> (at: usize)
    requires
        name < names@.len(),
        in_order(names@, places@),
        forall|i: int| 0 <= i < places@.len() ==> #[trigger] places@[i] < name,
    ensures
        at <= places@.len(),
        forall|i: int|
            #![trigger places@[i]]
            0 <= i < at ==> no_later(names@[places@[i] as int]@, names@[name as int]@),
        forall|i: int|
            #![trigger places@[i]]
            at <= i < places@.len() ==> no_later(names@[name as int]@, names@[places@[i] as int]@),
{
    let mut at: usize = places.len();
    while at > 0
        invariant
            at <= places@.len(),
            name < names@.len(),
            in_order(names@, places@),
            forall|i: int| 0 <= i < places@.len() ==> #[trigger] places@[i] < name,
            forall|i: int|
                #![trigger places@[i]]
                at <= i < places@.len() ==> no_later(names@[name as int]@, names@[places@[i] as int]@),
        decreases at,
    {
        if sorts_first(names[places[at - 1]].as_str(), names[name].as_str()) {
            proof {
                assert forall|i: int| #![trigger places@[i]] 0 <= i < at implies no_later(
                    names@[places@[i] as int]@,
                    names@[name as int]@,
                ) by {
                    if i < at - 1 {
                        lemma_no_later_chains(
                            names@[places@[i] as int]@,
                            names@[places@[at - 1] as int]@,
                            names@[name as int]@,
                        );
                    }
                }
            }
            return at;
        }
        proof {
            lemma_no_later_either_way(names@[places@[at - 1] as int]@, names@[name as int]@);
        }
        at = at - 1;
    }
    at
}

proof fn lemma_inserted(names: Seq<String>, places: Seq<usize>, at: int, name: usize)
    requires
        0 <= at <= places.len(),
        in_order(names, places),
        places.no_duplicates(),
        forall|i: int| 0 <= i < places.len() ==> #[trigger] places[i] < name,
        forall|i: int|
            #![trigger places[i]]
            0 <= i < at ==> no_later(names[places[i] as int]@, names[name as int]@),
        forall|i: int|
            #![trigger places[i]]
            at <= i < places.len() ==> no_later(names[name as int]@, names[places[i] as int]@),
    ensures
        in_order(names, places.insert(at, name)),
        places.insert(at, name).no_duplicates(),
        forall|m: usize|
            #[trigger] places.insert(at, name).contains(m) <==> m == name || places.contains(m),
        forall|i: int| 0 <= i < places.len() + 1 ==> #[trigger] places.insert(at, name)[i] <= name,
{
    let after = places.insert(at, name);
    assert forall|i: int, j: int|
        #![trigger after[i], after[j]]
        0 <= i < j < after.len() implies no_later(names[after[i] as int]@, names[after[j] as int]@) && after[i]
        != after[j] by {
        let (x, y) = (if i < at {
            i
        } else {
            i - 1
        }, if j < at {
            j
        } else {
            j - 1
        });
        if i != at {
            assert(after[i] == places[x]);
        }
        if j != at {
            assert(after[j] == places[y]);
        }
    }
    assert forall|m: usize| #[trigger] after.contains(m) <==> m == name || places.contains(m) by {
        if after.contains(m) {
            let i = choose|i: int| 0 <= i < after.len() && after[i] == m;
            if i < at {
                assert(places[i] == m);
            } else if i > at {
                assert(places[i - 1] == m);
            }
        }
        if places.contains(m) {
            let i = choose|i: int| 0 <= i < places.len() && places[i] == m;
            if i < at {
                assert(after[i] == m);
            } else {
                assert(after[i + 1] == m);
            }
        }
        assert(after[at] == name);
    }
    assert forall|i: int| 0 <= i < places.len() + 1 implies #[trigger] after[i] <= name by {
        if i < at {
            assert(after[i] == places[i]);
        } else if i > at {
            assert(after[i] == places[i - 1]);
        }
    }
}

/// Names sort by the first character they differ in, and one that another
/// begins with sorts ahead of it.
pub proof fn names_sort_by_the_first_difference(a: Seq<char>, b: Seq<char>, at: int)
    requires
        0 <= at <= a.len(),
        at <= b.len(),
        forall|k: int| 0 <= k < at ==> #[trigger] a[k] == b[k],
        at == a.len() || at == b.len() || a[at] != b[at],
    ensures
        at == a.len() ==> no_later(a, b),
        at < a.len() && at == b.len() ==> !no_later(a, b),
        at < a.len() && at < b.len() ==> (no_later(a, b) <==> a[at] < b[at]),
    decreases a.len(),
{
    if at > 0 {
        assert(a[0] == b[0]);
        let (x, y) = (a.drop_first(), b.drop_first());
        assert forall|k: int| 0 <= k < at - 1 implies #[trigger] x[k] == y[k] by {
            assert(a[k + 1] == b[k + 1]);
        }
        names_sort_by_the_first_difference(x, y, at - 1);
    }
}

/// What stands under a directory named by a number is of that level; and where
/// no directory is, the name itself is read.
pub proof fn a_path_is_of_the_level_it_stands_under(level: nat, rest: Seq<char>)
    requires
        level <= u32::MAX,
    ensures
        level_in(text::decimal_of(level) + seq!['/'] + rest) == Some(level as u32),
        level_in(text::decimal_of(level)) == Some(level as u32),
{
    let name = text::decimal_of(level);
    text::a_number_reads_back(level);
    text::a_number_is_written_in_digits(level);
    let path = name + seq!['/'] + rest;
    text::a_text_is_split_at_the_first(path, '/', '/', 0);
    text::a_text_is_split_at_the_first(name, '/', '/', 0);
    let at = name.len() as int;
    assert(path[at] == '/');
    assert forall|k: int| 0 <= k < at implies #[trigger] path[k] != '/' by {
        assert(path[k] == name[k]);
        assert(48 <= name[k] as int <= 57);
    }
    assert(text::first_of(path, '/', '/', 0) == Some(at));
    assert(path.take(at) =~= name);
    if let Some(k) = text::first_of(name, '/', '/', 0) {
        assert(48 <= name[k] as int <= 57);
    }
}

/// What stands under a directory that is no number is of no level.
pub proof fn a_path_under_a_name_is_of_no_level(name: Seq<char>, rest: Seq<char>)
    requires
        name.len() > 0,
        !(48 <= name[0] as int <= 57),
        name[0] as int != 43,
        forall|k: int| 0 <= k < name.len() ==> #[trigger] name[k] != '/',
    ensures
        level_in(name + seq!['/'] + rest) is None,
{
    let path = name + seq!['/'] + rest;
    text::a_text_is_split_at_the_first(path, '/', '/', 0);
    let at = name.len() as int;
    assert(path[at] == '/');
    assert forall|k: int| 0 <= k < at implies #[trigger] path[k] != '/' by {
        assert(path[k] == name[k]);
    }
    assert(text::first_of(path, '/', '/', 0) == Some(at));
    assert(path.take(at) =~= name);
    assert(name.take(0) =~= Seq::<char>::empty());
    text::anything_but_a_digit_is_refused(name, 0);
}

/// A copy carries every file that is of no level or of one no finer than it
/// keeps, and none that is finer; the manifest it never carries.
pub proof fn a_copy_leaves_the_finer_levels_behind(path: Seq<char>, base: u32, manifest: Seq<char>)
    ensures
        !carried(manifest, base, manifest),
        path != manifest && level_in(path) is None ==> carried(path, base, manifest),
        path != manifest ==> (level_in(path) matches Some(level) ==> (carried(path, base, manifest) <==> level
            >= base)),
{
}

/// Every product is wanted where none is named, and where some are, those are
/// and no other.
pub proof fn every_product_is_wanted_where_none_is_named(wanted: Seq<String>, name: Seq<char>, i: int)
    ensures
        wanted.len() == 0 ==> is_wanted(wanted, name),
        0 <= i < wanted.len() ==> is_wanted(wanted, wanted[i]@),
        wanted.len() > 0 && is_wanted(wanted, name) ==> exists|k: int|
            0 <= k < wanted.len() && #[trigger] wanted[k]@ == name,
{
}

/// Names picked in order never go back: of any two, the later is no earlier by
/// the first character they differ in.
pub proof fn names_in_order_never_go_back(names: Seq<String>, places: Seq<usize>, i: int, j: int, at: int)
    requires
        in_order(names, places),
        0 <= i < j < places.len(),
        ({
            let (a, b) = (names[places[i] as int]@, names[places[j] as int]@);
            &&& 0 <= at < a.len()
            &&& forall|k: int| 0 <= k < at && k < b.len() ==> #[trigger] a[k] == b[k]
            &&& at < b.len() ==> a[at] != b[at]
            &&& at <= b.len()
        }),
    ensures
        ({
            let (a, b) = (names[places[i] as int]@, names[places[j] as int]@);
            at < b.len() && a[at] < b[at]
        }),
{
    let (a, b) = (names[places[i] as int]@, names[places[j] as int]@);
    assert(no_later(a, b));
    names_sort_by_the_first_difference(a, b, at);
}

} // verus!
