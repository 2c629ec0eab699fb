use vstd::prelude::*;
use vstd::string::StrSliceExecFns;

verus! {

/// Custom game boards saved under a name, one board per name, kept in
/// ascending name order.
pub struct BoardTable<S> {
    boards: Vec<(String, S)>,
}

/// Lexicographic order on names, character by character; a proper prefix
/// comes first.
pub open spec fn name_less(a: Seq<char>, b: Seq<char>) -> bool
    decreases a.len(),
{
    if a.len() == 0 {
        b.len() > 0
    } else if b.len() == 0 {
        false
    } else if (a[0] as int) < (b[0] as int) {
        true
    } else if a[0] == b[0] {
        name_less(a.drop_first(), b.drop_first())
    } else {
        false
    }
}

proof fn lemma_name_irreflexive(a: Seq<char>)
    ensures
        !name_less(a, a),
    decreases a.len(),
{
    if a.len() > 0 {
        lemma_name_irreflexive(a.drop_first());
    }
}

proof fn lemma_name_total(a: Seq<char>, b: Seq<char>)
    ensures
        a == b || name_less(a, b) || name_less(b, a),
    decreases a.len(),
{
    if a.len() == 0 {
        if b.len() == 0 {
            assert(a =~= b);
        }
    } else if b.len() > 0 && a[0] != b[0] {
        assert((a[0] as int) != (b[0] as int));
    } else if b.len() > 0 && a[0] == b[0] {
        lemma_name_total(a.drop_first(), b.drop_first());
        if a.drop_first() == b.drop_first() {
            assert(a =~= seq![a[0]] + a.drop_first());
            assert(b =~= seq![b[0]] + b.drop_first());
        }
    }
}

proof fn lemma_name_transitive(a: Seq<char>, b: Seq<char>, c: Seq<char>)
    requires
        name_less(a, b),
        name_less(b, c),
    ensures
        name_less(a, c),
    decreases a.len(),
{
    if a.len() > 0 && b.len() > 0 && c.len() > 0 && a[0] == b[0] && b[0] == c[0] {
        lemma_name_transitive(a.drop_first(), b.drop_first(), c.drop_first());
    }
}

/// Names in strictly ascending order.
pub open spec fn names_ascending<S>(s: Seq<(String, S)>) -> bool {
    forall|i: int, j: int| 0 <= i < j < s.len() ==> name_less(#[trigger] s[i].0@, #[trigger] s[j].0@)
}

pub open spec fn names_unique<S>(s: Seq<(String, S)>) -> bool {
    forall|i: int, j: int|
        0 <= i < s.len() && 0 <= j < s.len() && #[trigger] s[i].0@ == #[trigger] s[j].0@ ==> i == j
}

pub open spec fn boards_of<S>(s: Seq<(String, S)>) -> Map<Seq<char>, S> {
    Map::new(
        |k: Seq<char>| exists|i: int| 0 <= i < s.len() && #[trigger] s[i].0@ == k,
        |k: Seq<char>| s[choose|i: int| 0 <= i < s.len() && #[trigger] s[i].0@ == k].1,
    )
}

proof fn lemma_ascending_unique<S>(s: Seq<(String, S)>)
    requires
        names_ascending(s),
    ensures
        names_unique(s),
{
    assert forall|i: int, j: int|
        0 <= i < s.len() && 0 <= j < s.len() && #[trigger] s[i].0@ == #[trigger] s[j].0@ implies i
        == j by {
        lemma_name_irreflexive(s[i].0@);
        if i < j {
            assert(name_less(s[i].0@, s[j].0@));
        } else if j < i {
            assert(name_less(s[j].0@, s[i].0@));
        }
    }
}

proof fn lemma_board_at<S>(s: Seq<(String, S)>, i: int)
    requires
        names_unique(s),
        0 <= i < s.len(),
    ensures
        boards_of(s).contains_key(s[i].0@),
        boards_of(s)[s[i].0@] == s[i].1,
{
    let k = s[i].0@;
    assert(exists|j: int| 0 <= j < s.len() && #[trigger] s[j].0@ == k);
}

/// Whether name `a` sorts strictly before name `b`.
pub fn name_precedes(a: &String, b: &String) -> (r: bool)
    ensures
        r == name_less(a@, b@),
{
    let sa = a.as_str();
    let sb = b.as_str();
    let na = sa.unicode_len();
    let nb = sb.unicode_len();
    let mut i: usize = 0;
    proof {
        assert(a@.skip(0) =~= a@);
        assert(b@.skip(0) =~= b@);
    }
    while i < na && i < nb
        invariant
            sa@ == a@,
            sb@ == b@,
            na == a@.len(),
            nb == b@.len(),
            i <= na,
            i <= nb,
            name_less(a@, b@) == name_less(a@.skip(i as int), b@.skip(i as int)),
        decreases na - i,
    {
        let ca = sa.get_char(i);
        let cb = sb.get_char(i);
        proof {
            assert(a@.skip(i as int)[0] == ca);
            assert(b@.skip(i as int)[0] == cb);
            assert(a@.skip(i as int).drop_first() =~= a@.skip(i + 1));
            assert(b@.skip(i as int).drop_first() =~= b@.skip(i + 1));
        }
        if (ca as u32) < (cb as u32) {
            return true;
        }
        if ca != cb {
            return false;
        }
        i = i + 1;
    }
    i < nb
}

impl<S> BoardTable<S> {
    /// The saved boards in ascending name order.
    pub closed spec fn entries(&self) -> Seq<(String, S)> {
        self.boards@
    }

    /// The saved boards, by name.
    pub open spec fn view(&self) -> Map<Seq<char>, S> {
        boards_of(self.entries())
    }

    /// Names strictly ascending, so no name is saved twice.
    pub open spec fn wf(&self) -> bool {
        names_ascending(self.entries())
    }

    /// An empty table.
    pub fn new() -> (r: Self)
        ensures
            r.wf(),
            r.view() == Map::<Seq<char>, S>::empty(),
    {
        let r = BoardTable { boards: Vec::new() };
        assert(r.view() =~= Map::<Seq<char>, S>::empty());
        r
    }

    /// Where `name` stands in name order, and whether it is saved there.
    fn position(&self, name: &String) -> (r: (usize, bool))
        requires
            self.wf(),
        ensures
            r.0 <= self.entries().len(),
            forall|a: int| 0 <= a < r.0 ==> name_less(#[trigger] self.entries()[a].0@, name@),
            r.1 ==> r.0 < self.entries().len() && self.entries()[r.0 as int].0@ == name@,
            !r.1 ==> forall|b: int|
                r.0 <= b < self.entries().len() ==> name_less(name@, #[trigger] self.entries()[b].0@),
            !r.1 ==> !self.view().contains_key(name@),
    {
        let mut i: usize = 0;
        while i < self.boards.len() && name_precedes(&self.boards[i].0, name)
            invariant
                self.wf(),
                i <= self.entries().len(),
                forall|a: int| 0 <= a < i ==> name_less(#[trigger] self.entries()[a].0@, name@),
            decreases self.entries().len() - i,
        {
            i = i + 1;
        }
        if i < self.boards.len() && self.boards[i].0 == *name {
            return (i, true);
        }
        proof {
            let s = self.entries();
            if i < s.len() {
                lemma_name_total(s[i as int].0@, name@);
            }
            assert forall|b: int| i <= b < s.len() implies name_less(name@, #[trigger] s[b].0@) by {
                if b > i {
                    lemma_name_transitive(name@, s[i as int].0@, s[b].0@);
                }
            }
            if self.view().contains_key(name@) {
                let j = choose|j: int| 0 <= j < s.len() && #[trigger] s[j].0@ == name@;
                lemma_name_irreflexive(name@);
            }
        }
        (i, false)
    }
}

/// Every saved board with its name, in ascending name order.
pub fn get_all_gustom<S>(table: &BoardTable<S>) -> (r: &Vec<(String, S)>)
    requires
        table.wf(),
    ensures
        r@ == table.entries(),
        names_ascending(r@),
        forall|i: int| 0 <= i < r@.len() ==> table.view().contains_key(#[trigger] r@[i].0@)
            && table.view()[r@[i].0@] == r@[i].1,
        forall|k: Seq<char>| #[trigger] table.view().contains_key(k) ==> exists|i: int|
            0 <= i < r@.len() && #[trigger] r@[i].0@ == k,
{
    proof {
        let s = table.entries();
        lemma_ascending_unique(s);
        assert forall|i: int| 0 <= i < s.len() implies table.view().contains_key(#[trigger] s[i].0@)
            && table.view()[s[i].0@] == s[i].1 by {
            lemma_board_at(s, i);
        }
    }
    &table.boards
}

/// The board saved under `name`, if any.
pub fn get_gustom_game<'a, S>(table: &'a BoardTable<S>, name: &String) -> (r: Option<&'a S>)
    requires
        table.wf(),
    ensures
        match r {
            Some(b) => table.view().contains_key(name@) && table.view()[name@] == *b,
            None => !table.view().contains_key(name@),
        },
{
    let (i, found) = table.position(name);
    if found {
        proof {
            lemma_ascending_unique(table.entries());
            lemma_board_at(table.entries(), i as int);
        }
        Some(&table.boards[i].1)
    } else {
        None
    }
}

/// Saves `board` under `name`, replacing any board saved there before.
pub fn update_custom_game<S>(table: &mut BoardTable<S>, name: String, board: S)
    requires
        old(table).wf(),
    ensures
        final(table).wf(),
        final(table).view() == old(table).view().insert(name@, board),
{
    let ghost s = table.entries();
    let ghost k = name@;
    let (i, found) = table.position(&name);
    proof {
        lemma_ascending_unique(s);
    }
    if found {
        table.boards.remove(i);
    }
    table.boards.insert(i, (name, board));
    proof {
        let n = table.entries();
        let e = n[i as int];
        if found {
            assert(n =~= s.update(i as int, e));
        } else {
            assert(n =~= s.insert(i as int, e));
        }
        assert forall|a: int, b: int| 0 <= a < b < n.len() implies name_less(
            #[trigger] n[a].0@,
            #[trigger] n[b].0@,
        ) by {
            if found {
                if a != i && b != i {
                    assert(name_less(s[a].0@, s[b].0@));
                } else if a == i {
                    assert(name_less(s[a].0@, s[b].0@));
                } else {
                    assert(name_less(s[a].0@, s[b].0@));
                }
            } else {
                if b < i {
                    assert(name_less(s[a].0@, s[b].0@));
                } else if b == i {
                    assert(name_less(s[a].0@, k));
                } else if a < i {
                    assert(name_less(s[a].0@, k));
                    assert(name_less(k, s[b - 1].0@));
                    lemma_name_transitive(s[a].0@, k, s[b - 1].0@);
                } else if a == i {
                    assert(name_less(k, s[b - 1].0@));
                } else {
                    assert(name_less(s[a - 1].0@, s[b - 1].0@));
                }
            }
        }
        lemma_ascending_unique(n);
        assert forall|x: Seq<char>| #[trigger] table.view().contains_key(x)
            == old(table).view().insert(k, board).contains_key(x) by {
            if old(table).view().contains_key(x) {
                let j = choose|j: int| 0 <= j < s.len() && #[trigger] s[j].0@ == x;
                if found || j < i {
                    assert(n[j].0@ == x);
                } else {
                    assert(n[j + 1].0@ == x);
                }
            }
            if table.view().contains_key(x) {
                let j = choose|j: int| 0 <= j < n.len() && #[trigger] n[j].0@ == x;
                if j != i {
                    if found || j < i {
                        assert(s[j].0@ == x);
                    } else {
                        assert(s[j - 1].0@ == x);
                    }
                }
            }
            if x == k {
                assert(n[i as int].0@ == x);
            }
        }
        assert forall|x: Seq<char>| #[trigger] table.view().contains_key(x) implies table.view()[x]
            == old(table).view().insert(k, board)[x] by {
            let j = choose|j: int| 0 <= j < n.len() && #[trigger] n[j].0@ == x;
            lemma_board_at(n, j);
            if j != i {
                if found || j < i {
                    lemma_board_at(s, j);
                } else {
                    lemma_board_at(s, j - 1);
                }
            }
        }
        assert(table.view() =~= old(table).view().insert(k, board));
    }
}

} // verus!
