//! The catalogue tree: items at the leaves, labelled groups above them.

use vstd::prelude::*;

use crate::address::Index;

verus! {

/// A catalogue node: an item, or a group with its own payload (such as a label)
/// and an ordered list of child nodes.
#[derive(Debug, PartialEq, Eq)]
pub enum Catalogue<T, U> {
    Item(T),
    List { data: U, list: Vec<Catalogue<T, U>> },
}

/// The node that `path` names below `node`: each position picks a child of the
/// current group; an item has no children, and a position past the last child names
/// nothing.
pub open spec fn resolve<T, U>(node: Catalogue<T, U>, path: Seq<usize>) -> Option<Catalogue<T, U>>
    decreases path.len(),
{
    if path.len() == 0 {
        Some(node)
    } else {
        match node {
            Catalogue::Item(_) => None,
            Catalogue::List { list, .. } => {
                if path[0] < list@.len() {
                    resolve(list@[path[0] as int], path.drop_first())
                } else {
                    None
                }
            },
        }
    }
}


/// The number of pages of at most `k` entries that `n` entries fill: `n / k` rounded up.
pub open spec fn ceil_div(n: nat, k: nat) -> nat
    recommends
        k > 0,
{
    ((n + k - 1) as int / k as int) as nat
}

/// The child positions that the entries of a page carry, in order.
pub open spec fn entry_positions<'a, T, U>(page: Seq<(usize, &'a Catalogue<T, U>)>) -> Seq<usize> {
    page.map_values(|e: (usize, &'a Catalogue<T, U>)| e.0)
}

/// The child positions carried by each page.
pub open spec fn page_positions<'a, T, U>(pages: Seq<Vec<(usize, &'a Catalogue<T, U>)>>) -> Seq<
    Seq<usize>,
> {
    pages.map_values(|page: Vec<(usize, &'a Catalogue<T, U>)>| entry_positions(page@))
}

/// `pages` splits `children`, in order, into consecutive runs of `k` (the last run
/// may be shorter, none is empty); each entry holds a child and its position among
/// all the children.
pub open spec fn is_pagination<'a, T, U>(
    children: Seq<Catalogue<T, U>>,
    k: nat,
    pages: Seq<Vec<(usize, &'a Catalogue<T, U>)>>,
) -> bool {
    &&& pages.len() == ceil_div(children.len(), k)
    &&& page_positions(pages).flatten() == Seq::new(children.len(), |i: int| i as usize)
    &&& forall|p: int| 0 <= p < pages.len() ==> 0 < #[trigger] pages[p]@.len() <= k
    &&& forall|p: int| 0 <= p < pages.len() - 1 ==> #[trigger] pages[p]@.len() == k
    &&& forall|p: int, q: int|
        0 <= p < pages.len() && 0 <= q < pages[p]@.len() ==> *(#[trigger] pages[p]@[q]).1
            == children[pages[p]@[q].0 as int]
}

impl<T, U> Catalogue<T, U> {
    /// The node that `path` names below this one, or `None` where there is none.
    pub fn get(&self, path: &Index) -> (r: Option<&Self>)
        ensures
            resolve(*self, path@) is None ==> r is None,
            resolve(*self, path@) matches Some(n) ==> (r matches Some(m) && *m == n),
    {
        assert(path@.skip(0) == path@);
        self.get_inner(path, 0)
    }

    /// The node that the positions of `path` from `from` on name below this one.
    fn get_inner(&self, path: &Index, from: usize) -> (r: Option<&Self>)
        requires
            from <= path@.len(),
        ensures
            resolve(*self, path@.skip(from as int)) is None ==> r is None,
            resolve(*self, path@.skip(from as int)) matches Some(n) ==> (r matches Some(m)
                && *m == n),
        decreases path@.len() - from,
    {
        if from < path.0.len() {
            let ghost rest = path@.skip(from as int);
            assert(rest.drop_first() == path@.skip(from + 1));
            match self {
                Catalogue::List { list, .. } => {
                    let k = path.0[from];
                    if k < list.len() {
                        list[k].get_inner(path, from + 1)
                    } else {
                        None
                    }
                },
                Catalogue::Item(_) => None,
            }
        } else {
            assert(path@.skip(from as int).len() == 0);
            Some(self)
        }
    }
    /// The children of a group in pages of at most `page_size`, each child with its
    /// position in the group; no pages for an item.
    pub fn paginate(&self, page_size: usize) -> (r: Vec<Vec<(usize, &Self)>>)
        requires
            page_size > 0,
        ensures
            match *self {
                Catalogue::Item(_) => r@.len() == 0,
                Catalogue::List { list, .. } => is_pagination(list@, page_size as nat, r@),
            },
    {
        let mut pages: Vec<Vec<(usize, &Self)>> = Vec::new();
        match self {
            Catalogue::Item(_) => pages,
            Catalogue::List { list, .. } => {
                let k = page_size;
                let mut cur: Vec<(usize, &Self)> = Vec::new();
                let mut i: usize = 0;
                assert(0 * k == 0);
                while i < list.len()
                    invariant
                        k > 0,
                        i <= list@.len(),
                        page_positions(pages@).flatten() + entry_positions(cur@) == Seq::new(
                            i as nat,
                            |j: int| j as usize,
                        ),
                        forall|p: int| 0 <= p < pages@.len() ==> #[trigger] pages@[p]@.len() == k,
                        cur@.len() <= k,
                        i == 0 <==> cur@.len() == 0,
                        i == pages@.len() * k + cur@.len(),
                        forall|p: int, q: int|
                            0 <= p < pages@.len() && 0 <= q < pages@[p]@.len() ==> *(
                            #[trigger] pages@[p]@[q]).1 == list@[pages@[p]@[q].0 as int],
                        forall|q: int|
                            0 <= q < cur@.len() ==> *(#[trigger] cur@[q]).1 == list@[cur@[q].0 as int],
                    decreases list@.len() - i,
                {
                    if cur.len() == k {
                        proof {
                            let pp = page_positions(pages@);
                            assert(page_positions(pages@.push(cur)) == pp.push(entry_positions(cur@)));
                            pp.lemma_flatten_push(entry_positions(cur@));
                            assert(entry_positions(Seq::<(usize, &Self)>::empty()) == Seq::<usize>::empty());
                            assert((pages@.len() + 1) * k == pages@.len() * k + k) by (nonlinear_arith);
                        }
                        pages.push(cur);
                        cur = Vec::new();
                        assert(page_positions(pages@).flatten() + entry_positions(cur@)
                            =~= Seq::new(i as nat, |j: int| j as usize));
                    }
                    assert(cur@.len() < k);
                    let ghost before = page_positions(pages@).flatten() + entry_positions(cur@);
                    cur.push((i, &list[i]));
                    proof {
                        assert(entry_positions(cur@) == entry_positions(cur@.drop_last()).push(i));
                        assert(page_positions(pages@).flatten() + entry_positions(cur@)
                            =~= before.push(i));
                        assert(before.push(i) =~= Seq::new((i + 1) as nat, |j: int| j as usize));
                    }
                    i += 1;
                }
                let ghost n = list@.len();
                let ghost np = pages@.len();
                let ghost c = cur@.len();
                if cur.len() > 0 {
                    proof {
                        let pp = page_positions(pages@);
                        assert(page_positions(pages@.push(cur)) == pp.push(entry_positions(cur@)));
                        pp.lemma_flatten_push(entry_positions(cur@));
                        assert((np + 1) * k == np * k + k) by (nonlinear_arith);
                        vstd::arithmetic::div_mod::lemma_fundamental_div_mod_converse(
                            n + k - 1,
                            k as int,
                            np + 1 as int,
                            c - 1,
                        );
                    }
                    pages.push(cur);
                } else {
                    proof {
                        assert(page_positions(pages@).flatten() + entry_positions(cur@)
                            == page_positions(pages@).flatten());
                        vstd::arithmetic::div_mod::lemma_fundamental_div_mod_converse(
                            n + k - 1,
                            k as int,
                            0 as int,
                            k - 1,
                        );
                    }
                }
                pages
            },
        }
    }
}

} // verus!

verus! {

impl<T: Clone, U: Clone> Clone for Catalogue<T, U> {
    fn clone(&self) -> (r: Self)
        decreases self,
    {
        match self {
            Catalogue::Item(item) => Catalogue::Item(item.clone()),
            Catalogue::List { data, list } => {
                let mut copy: Vec<Catalogue<T, U>> = Vec::new();
                let mut i: usize = 0;
                while i < list.len()
                    invariant
                        *self == (Catalogue::List { data: *data, list: *list }),
                    decreases list@.len() - i,
                {
                    proof {
                        assert(decreases_to!(*list => list[i as int]));
                        assert(decreases_to!(*self => self->list));
                        assert(decreases_to!(*self => list[i as int]));
                    }
                    copy.push(list[i].clone());
                    i += 1;
                }
                Catalogue::List { data: data.clone(), list: copy }
            },
        }
    }
}

/// The empty address names the node it is resolved against.
pub proof fn lemma_resolve_empty<T, U>(t: Catalogue<T, U>)
    ensures
        resolve(t, Seq::<usize>::empty()) == Some(t),
{
}

/// No address passes through an item: below a group's item child nothing is named.
pub proof fn lemma_item_blocks_descent<T, U>(root: Catalogue<T, U>, i: usize, rest: Seq<usize>)
    requires
        root matches Catalogue::List { list, .. } && i < list@.len() && list@[i as int] is Item,
        rest.len() > 0,
    ensures
        resolve(root, seq![i] + rest) is None,
{
    let path = seq![i] + rest;
    assert(path[0] == i);
    assert(path.drop_first() == rest);
    assert(resolve(root->list@[i as int], rest) is None);
}

/// A position past a group's last child names nothing, whatever follows it.
pub proof fn lemma_out_of_range<T, U>(root: Catalogue<T, U>, i: usize, rest: Seq<usize>)
    requires
        root matches Catalogue::List { list, .. } && i >= list@.len(),
    ensures
        resolve(root, seq![i] + rest) is None,
{
    assert((seq![i] + rest)[0] == i);
}

} // verus!
