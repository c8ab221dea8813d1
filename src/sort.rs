use vstd::prelude::*;

verus! {

/// One component of a sort key, as the comparison sees it.
pub enum Atom {
    Num(int),
    Text(Seq<char>),
}

/// One component of a sort key. Numbers order before texts; texts order
/// character by character, a proper prefix first.
pub enum KeyAtom {
    Num(i128),
    Text(Vec<char>),
}

impl KeyAtom {
    pub open spec fn view(&self) -> Atom {
        match self {
            KeyAtom::Num(n) => Atom::Num(*n as int),
            KeyAtom::Text(t) => Atom::Text(t@),
        }
    }
}

pub open spec fn atoms(v: Seq<KeyAtom>) -> Seq<Atom> {
    Seq::new(v.len(), |i: int| v[i].view())
}

pub open spec fn int_cmp(a: int, b: int) -> int {
    if a < b {
        -1
    } else if a > b {
        1
    } else {
        0
    }
}

pub open spec fn text_cmp(a: Seq<char>, b: Seq<char>) -> int
    decreases a.len(),
{
    if a.len() == 0 {
        if b.len() == 0 {
            0
        } else {
            -1
        }
    } else if b.len() == 0 {
        1
    } else if a[0] != b[0] {
        int_cmp(a[0] as int, b[0] as int)
    } else {
        text_cmp(a.drop_first(), b.drop_first())
    }
}

pub open spec fn atom_cmp(a: Atom, b: Atom) -> int {
    match (a, b) {
        (Atom::Num(x), Atom::Num(y)) => int_cmp(x, y),
        (Atom::Num(_), Atom::Text(_)) => -1,
        (Atom::Text(_), Atom::Num(_)) => 1,
        (Atom::Text(s), Atom::Text(t)) => text_cmp(s, t),
    }
}

/// Lexicographic comparison of keys: -1, 0 or 1.
pub open spec fn key_cmp(a: Seq<Atom>, b: Seq<Atom>) -> int
    decreases a.len(),
{
    if a.len() == 0 {
        if b.len() == 0 {
            0
        } else {
            -1
        }
    } else if b.len() == 0 {
        1
    } else if atom_cmp(a[0], b[0]) != 0 {
        atom_cmp(a[0], b[0])
    } else {
        key_cmp(a.drop_first(), b.drop_first())
    }
}

proof fn lemma_text_cmp(a: Seq<char>, b: Seq<char>, c: Seq<char>)
    ensures
        text_cmp(a, b) == -text_cmp(b, a),
        -1 <= text_cmp(a, b) <= 1,
        text_cmp(a, b) == 0 ==> a == b,
        text_cmp(a, b) < 0 && text_cmp(b, c) < 0 ==> text_cmp(a, c) < 0,
        text_cmp(a, a) == 0,
    decreases a.len(),
{
    if a.len() > 0 && b.len() > 0 && c.len() > 0 {
        lemma_text_cmp(a.drop_first(), b.drop_first(), c.drop_first());
    } else if a.len() > 0 && b.len() > 0 {
        lemma_text_cmp(a.drop_first(), b.drop_first(), Seq::empty());
    }
    if a.len() > 0 {
        lemma_text_cmp(a.drop_first(), a.drop_first(), Seq::empty());
    }
    if text_cmp(a, b) == 0 && a.len() > 0 {
        assert(a =~= seq![a[0]] + a.drop_first());
        assert(b =~= seq![b[0]] + b.drop_first());
    }
    if a.len() == 0 && b.len() == 0 {
        assert(a =~= b);
    }
}

proof fn lemma_atom_cmp(a: Atom, b: Atom, c: Atom)
    ensures
        atom_cmp(a, b) == -atom_cmp(b, a),
        -1 <= atom_cmp(a, b) <= 1,
        atom_cmp(a, b) == 0 ==> a == b,
        atom_cmp(a, b) < 0 && atom_cmp(b, c) < 0 ==> atom_cmp(a, c) < 0,
        atom_cmp(a, a) == 0,
{
    match (a, b, c) {
        (Atom::Text(s), Atom::Text(t), Atom::Text(u)) => lemma_text_cmp(s, t, u),
        (Atom::Text(s), Atom::Text(t), _) => lemma_text_cmp(s, t, Seq::empty()),
        (Atom::Text(s), _, _) => lemma_text_cmp(s, s, Seq::empty()),
        _ => {},
    }
}

/// Comparison of keys is a total order: antisymmetric, transitive, and zero
/// only on equal keys.
pub proof fn lemma_key_cmp(a: Seq<Atom>, b: Seq<Atom>, c: Seq<Atom>)
    ensures
        key_cmp(a, b) == -key_cmp(b, a),
        -1 <= key_cmp(a, b) <= 1,
        key_cmp(a, b) == 0 ==> a == b,
        key_cmp(a, b) < 0 && key_cmp(b, c) < 0 ==> key_cmp(a, c) < 0,
        key_cmp(a, a) == 0,
    decreases a.len(),
{
    if a.len() > 0 && b.len() > 0 {
        lemma_atom_cmp(a[0], b[0], if c.len() > 0 { c[0] } else { a[0] });
        lemma_atom_cmp(b[0], a[0], a[0]);
        if c.len() > 0 {
            lemma_atom_cmp(a[0], c[0], b[0]);
            lemma_atom_cmp(b[0], c[0], a[0]);
            lemma_key_cmp(a.drop_first(), b.drop_first(), c.drop_first());
        } else {
            lemma_key_cmp(a.drop_first(), b.drop_first(), Seq::empty());
        }
    }
    if a.len() > 0 {
        lemma_atom_cmp(a[0], a[0], a[0]);
        lemma_key_cmp(a.drop_first(), a.drop_first(), Seq::empty());
    }
    if key_cmp(a, b) == 0 && a.len() > 0 {
        assert(a =~= seq![a[0]] + a.drop_first());
        assert(b =~= seq![b[0]] + b.drop_first());
    }
    if a.len() == 0 && b.len() == 0 {
        assert(a =~= b);
    }
}

fn int_compare(a: i128, b: i128) -> (r: i8)
    ensures
        r == int_cmp(a as int, b as int),
{
    if a < b {
        -1
    } else if a > b {
        1
    } else {
        0
    }
}

fn text_compare(a: &Vec<char>, b: &Vec<char>) -> (r: i8)
    ensures
        r == text_cmp(a@, b@),
{
    let mut i: usize = 0;
    assert(a@.subrange(0, a.len() as int) =~= a@);
    assert(b@.subrange(0, b.len() as int) =~= b@);
    while i < a.len() && i < b.len()
        invariant
            i <= a.len(),
            i <= b.len(),
            a@.subrange(0, i as int) == b@.subrange(0, i as int),
            text_cmp(a@, b@) == text_cmp(a@.subrange(i as int, a.len() as int), b@.subrange(i as int, b.len() as int)),
        decreases a.len() - i,
    {
        let x = a[i];
        let y = b[i];
        if x != y {
            return if x < y {
                -1
            } else {
                1
            };
        }
        assert(a@.subrange(i as int, a.len() as int).drop_first() =~= a@.subrange(i + 1, a.len() as int));
        assert(b@.subrange(i as int, b.len() as int).drop_first() =~= b@.subrange(i + 1, b.len() as int));
        i = i + 1;
        assert(a@.subrange(0, i as int) =~= b@.subrange(0, i as int));
    }
    if i < a.len() {
        1
    } else if i < b.len() {
        -1
    } else {
        0
    }
}

fn atom_compare(a: &KeyAtom, b: &KeyAtom) -> (r: i8)
    ensures
        r == atom_cmp(a.view(), b.view()),
{
    match (a, b) {
        (KeyAtom::Num(x), KeyAtom::Num(y)) => int_compare(*x, *y),
        (KeyAtom::Num(_), KeyAtom::Text(_)) => -1,
        (KeyAtom::Text(_), KeyAtom::Num(_)) => 1,
        (KeyAtom::Text(s), KeyAtom::Text(t)) => text_compare(s, t),
    }
}

/// Compares two keys lexicographically: -1, 0 or 1.
pub fn compare_keys(a: &Vec<KeyAtom>, b: &Vec<KeyAtom>) -> (r: i8)
    ensures
        r == key_cmp(atoms(a@), atoms(b@)),
{
    let mut i: usize = 0;
    assert(atoms(a@).subrange(0, a.len() as int) =~= atoms(a@));
    assert(atoms(b@).subrange(0, b.len() as int) =~= atoms(b@));
    while i < a.len() && i < b.len()
        invariant
            i <= a.len(),
            i <= b.len(),
            key_cmp(atoms(a@), atoms(b@)) == key_cmp(
                atoms(a@).subrange(i as int, a.len() as int),
                atoms(b@).subrange(i as int, b.len() as int),
            ),
        decreases a.len() - i,
    {
        let c = atom_compare(&a[i], &b[i]);
        assert(atoms(a@).subrange(i as int, a.len() as int)[0] == a@[i as int].view());
        assert(atoms(b@).subrange(i as int, b.len() as int)[0] == b@[i as int].view());
        if c != 0 {
            return c;
        }
        assert(atoms(a@).subrange(i as int, a.len() as int).drop_first() =~= atoms(a@).subrange(i + 1, a.len() as int));
        assert(atoms(b@).subrange(i as int, b.len() as int).drop_first() =~= atoms(b@).subrange(i + 1, b.len() as int));
        i = i + 1;
    }
    if i < a.len() {
        1
    } else if i < b.len() {
        -1
    } else {
        0
    }
}

/// `perm` lists each index below `n` exactly once.
pub open spec fn is_permutation(perm: Seq<int>, n: int) -> bool {
    &&& perm.len() == n
    &&& forall|k: int| 0 <= k < n ==> 0 <= #[trigger] perm[k] < n
    &&& forall|k: int, l: int| 0 <= k < l < n ==> perm[k] != perm[l]
}

/// `r` is `items` reordered by `perm`, in ascending key order, items of
/// equal keys in their input order.
pub open spec fn stably_sorted<T>(r: Seq<(Vec<KeyAtom>, T)>, items: Seq<(Vec<KeyAtom>, T)>, perm: Seq<int>) -> bool {
    &&& r.len() == items.len()
    &&& is_permutation(perm, items.len() as int)
    &&& forall|k: int| 0 <= k < r.len() ==> #[trigger] r[k] == items[perm[k]]
    &&& forall|k: int, l: int|
        #![trigger r[k], r[l]]
        0 <= k < l < r.len() ==> {
            let c = key_cmp(atoms(r[k].0@), atoms(r[l].0@));
            c < 0 || (c == 0 && perm[k] < perm[l])
        }
}

/// Sorts by key, stably: the result is a permutation of the items in
/// ascending key order, and items with equal keys keep their relative order.
pub fn sort_by_key<T>(items: Vec<(Vec<KeyAtom>, T)>) -> (r: Vec<(Vec<KeyAtom>, T)>)
    ensures
        exists|perm: Seq<int>| stably_sorted(r@, items@, perm),
{
    let ghost orig = items@;
    let ghost n = items.len() as int;
    let mut rest = items;
    let mut out: Vec<(Vec<KeyAtom>, T)> = Vec::new();
    let ghost mut perm: Seq<int> = Seq::empty();
    while rest.len() > 0
        invariant
            out.len() + rest.len() == n,
            n == orig.len(),
            rest@ == orig.subrange(out.len() as int, n),
            perm.len() == out.len(),
            forall|k: int| 0 <= k < out.len() ==> 0 <= #[trigger] perm[k] < out.len(),
            forall|k: int, l: int| 0 <= k < l < out.len() ==> perm[k] != perm[l],
            forall|k: int| 0 <= k < out.len() ==> #[trigger] out@[k] == orig[perm[k]],
            forall|k: int, l: int|
                #![trigger out@[k], out@[l]]
                0 <= k < l < out.len() ==> {
                    let c = key_cmp(atoms(out@[k].0@), atoms(out@[l].0@));
                    c < 0 || (c == 0 && perm[k] < perm[l])
                },
        decreases rest.len(),
    {
        let item = rest.remove(0);
        let ghost i = out.len() as int;
        assert(item == orig[i]);
        let mut j: usize = out.len();
        while j > 0 && compare_keys(&out[j - 1].0, &item.0) > 0
            invariant
                j <= out.len(),
                forall|l: int| j <= l < out.len() ==> key_cmp(atoms(out@[l].0@), atoms(item.0@)) > 0,
            decreases j,
        {
            j = j - 1;
        }
        let ghost old_out = out@;
        let ghost old_perm = perm;
        proof {
            let x = atoms(item.0@);
            if j > 0 {
                assert(key_cmp(atoms(old_out[j - 1].0@), x) <= 0);
                assert forall|k: int| 0 <= k < j implies key_cmp(atoms(old_out[k].0@), x) <= 0 by {
                    if k < j - 1 {
                        let a = atoms(old_out[k].0@);
                        let b = atoms(old_out[j - 1].0@);
                        lemma_key_cmp(a, b, x);
                        lemma_key_cmp(b, x, a);
                        lemma_key_cmp(a, x, b);
                        if key_cmp(a, b) == 0 {
                            assert(a == b);
                        }
                        if key_cmp(b, x) == 0 {
                            assert(b == x);
                        }
                    }
                }
            }
        }
        out.insert(j, item);
        proof {
            perm = old_perm.take(j as int).push(i) + old_perm.skip(j as int);
            assert forall|k: int| 0 <= k < out.len() implies #[trigger] out@[k] == orig[perm[k]] by {
                if k < j {
                    assert(out@[k] == old_out[k]);
                } else if k > j {
                    assert(out@[k] == old_out[k - 1]);
                }
            }
            assert forall|k: int| 0 <= k < out.len() implies 0 <= #[trigger] perm[k] < out.len() by {
                if k < j {
                    assert(perm[k] == old_perm[k]);
                } else if k > j {
                    assert(perm[k] == old_perm[k - 1]);
                }
            }
            assert forall|k: int, l: int| 0 <= k < l < out.len() implies perm[k] != perm[l] by {
                if k < j && l < j {
                    assert(perm[k] == old_perm[k] && perm[l] == old_perm[l]);
                } else if k < j && l > j {
                    assert(perm[k] == old_perm[k] && perm[l] == old_perm[l - 1]);
                } else if k > j && l > j {
                    assert(perm[k] == old_perm[k - 1] && perm[l] == old_perm[l - 1]);
                } else if k == j {
                    assert(perm[l] == old_perm[l - 1]);
                } else {
                    assert(perm[k] == old_perm[k]);
                }
            }
            assert forall|k: int, l: int| #![trigger out@[k], out@[l]] 0 <= k < l < out.len() implies {
                let c = key_cmp(atoms(out@[k].0@), atoms(out@[l].0@));
                c < 0 || (c == 0 && perm[k] < perm[l])
            } by {
                let x = atoms(item.0@);
                if k < j && l < j {
                    assert(perm[k] == old_perm[k] && perm[l] == old_perm[l]);
                    assert(out@[k] == old_out[k] && out@[l] == old_out[l]);
                } else if k < j && l > j {
                    assert(perm[k] == old_perm[k] && perm[l] == old_perm[l - 1]);
                    assert(out@[k] == old_out[k] && out@[l] == old_out[l - 1]);
                } else if k > j && l > j {
                    assert(perm[k] == old_perm[k - 1] && perm[l] == old_perm[l - 1]);
                    assert(out@[k] == old_out[k - 1] && out@[l] == old_out[l - 1]);
                } else if k == j {
                    assert(perm[l] == old_perm[l - 1]);
                    assert(out@[l] == old_out[l - 1]);
                    lemma_key_cmp(x, atoms(old_out[l - 1].0@), x);
                } else {
                    assert(perm[k] == old_perm[k]);
                    assert(out@[k] == old_out[k]);
                }
            }
            assert(rest@ =~= orig.subrange(out.len() as int, n));
        }
    }
    assert(stably_sorted(out@, orig, perm));
    out
}

} // verus!
