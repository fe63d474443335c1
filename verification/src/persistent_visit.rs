//! A query's walk as a whole: bounded two-phase execution that certifies each node once, reads
//! boundary tiles, and takes the certified summaries at once or, in the order of the file, at
//! the end.
use vstd::prelude::*;

use crate::cancel::{ended, Cancel};
use crate::error::Error;
use crate::hierarchy::children_of;
use crate::layout::{edge_at, end_of, lemma_level_counts, level_at};
use crate::persistent_query::{boundary_of, boundary_step, QueryOptions};
use crate::persistent_walk::{
    holders, ids, in_node, lemma_holders_join, lemma_same_walk, step_of, FlatTiles, Relation,
    Schedule, Step, Walk,
};
use crate::range_schedule::{
    ascending, cost_overflows, optimal, plan, ranges_of, span_overflows, MAX_RECORDS,
};

verus! {

/// What the walk is waiting for.
#[derive(Clone, Copy, Debug, PartialEq, Eq, Structural)]
pub enum Asked {
    Nothing,
    /// The relation of a node to the geometry.
    Relation(usize),
    /// The cells of a boundary tile that the geometry touches.
    Cells(usize),
}

/// What comes next.
#[derive(Clone, Copy, Debug, PartialEq, Eq, Structural)]
pub enum Turn {
    /// The relation of a node is asked for.
    Ask(usize),
    /// The summaries that were put off are taken from here on.
    Drain,
    /// A summary that was put off is taken.
    Take(usize),
    /// Nothing is left.
    End,
}

/// What an answer leads to.
#[derive(Clone, Copy, Debug, PartialEq, Eq, Structural)]
pub enum Outcome {
    Skip,
    Descend,
    /// The summary is taken at once.
    Take,
    /// The summary is put off to the end of the walk.
    PutOff,
    /// The cells of the tile are asked for.
    Cells,
}

/// A walk from the root of a hierarchy, or over the tiles of a window.
pub struct Visit {
    pub walk: Walk,
    pub tiles: Option<FlatTiles>,
    pub two_phase: bool,
    pub draining: bool,
    pub put_off: Schedule,
    /// How many of the summaries that were put off have been taken.
    pub drained: usize,
    pub asked: Asked,
    /// The nodes whose summaries were taken.
    pub taken: Ghost<Seq<int>>,
    /// The tiles whose raw cells were read.
    pub read: Ghost<Seq<int>>,
    /// The nodes that contribute nothing.
    pub left: Ghost<Seq<int>>,
    pub forbidden: Ghost<Seq<usize>>,
}

/// A tile of a window is still to come.
pub open spec fn ahead(f: FlatTiles, tx: int, ty: int) -> bool {
    &&& f.left <= tx < f.right
    &&& f.top <= ty < f.bottom
    &&& ty > f.y || (ty == f.y && tx >= f.x)
}

/// The tiles behind the next one.
pub open spec fn stepped(f: FlatTiles) -> FlatTiles {
    if f.x + 1 < f.right {
        FlatTiles { x: (f.x + 1) as usize, ..f }
    } else {
        FlatTiles { x: f.left, y: (f.y + 1) as usize, ..f }
    }
}

/// A power of five.
pub open spec fn five(k: int) -> int
    decreases k,
{
    if k <= 0 {
        1
    } else {
        5 * five(k - 1)
    }
}

/// What a node may still take, with everything below it: more than its children together.
pub open spec fn node_steps(levels: Seq<(int, int, int)>, node: int) -> int {
    3 * five(level_at(levels, node))
}

/// What some nodes may still take together.
pub open spec fn nodes_steps(levels: Seq<(int, int, int)>, nodes: Seq<int>) -> int
    decreases nodes.len(),
{
    if nodes.len() == 0 {
        0
    } else {
        nodes_steps(levels, nodes.drop_last()) + node_steps(levels, nodes.last())
    }
}

pub open spec fn count_of(b: bool) -> int {
    if b {
        1
    } else {
        0
    }
}

/// The node that came next was taken out: the last one pending, or the next tile.
pub open spec fn popped(a: Visit, b: Visit, node: usize) -> bool {
    match a.tiles {
        None => {
            &&& a.walk.pending@.len() > 0
            &&& node == a.walk.pending@.last()
            &&& b.walk.pending@ == a.walk.pending@.drop_last()
            &&& b.tiles is None
        },
        Some(f) => {
            &&& f.x < f.right
            &&& f.y < f.bottom
            &&& node == f.y * f.across + f.x
            &&& b.walk.pending@ == a.walk.pending@
            &&& b.tiles == Some(stepped(f))
        },
    }
}

impl Visit {
    /// The tile of a cell, by column and row.
    pub open spec fn home(&self, x: int, y: int) -> (int, int) {
        let edge = self.walk.layout.tile_edge as int;
        (x / edge, y / edge)
    }

    /// How often a cell is visited over the whole walk.
    pub open spec fn due(&self, x: int, y: int) -> int {
        match self.tiles {
            None => 1,
            Some(f) => {
                let (tx, ty) = self.home(x, y);
                count_of(f.left <= tx < f.right && f.top <= ty < f.bottom)
            },
        }
    }

    /// How many nodes that are still to be asked about hold a cell.
    pub open spec fn coming(&self, x: int, y: int) -> int {
        self.walk.waiting(x, y) + match self.tiles {
            None => 0,
            Some(f) => count_of(ahead(f, self.home(x, y).0, self.home(x, y).1)),
        }
    }

    /// The node that was asked about holds a cell.
    pub open spec fn asked_holds(&self, x: int, y: int) -> bool {
        match self.asked {
            Asked::Nothing => false,
            Asked::Relation(node) => in_node(self.walk, node as int, x, y),
            Asked::Cells(node) => in_node(self.walk, node as int, x, y),
        }
    }

    /// The nodes whose summaries are put off.
    pub open spec fn waiting_summaries(&self) -> Seq<int> {
        ids(self.put_off.records@.skip(self.drained as int))
    }

    /// How many nodes with an outcome hold a cell.
    pub open spec fn settled(&self, x: int, y: int) -> int {
        holders(self.walk, self.taken@, x, y) + holders(self.walk, self.read@, x, y) + holders(
            self.walk,
            self.left@,
            x,
            y,
        )
    }

    /// Each cell is either still to come, or asked about, or put off, or settled.
    pub open spec fn balanced(&self, x: int, y: int) -> bool {
        self.coming(x, y) + count_of(self.asked_holds(x, y)) + holders(
            self.walk,
            self.waiting_summaries(),
            x,
            y,
        ) + self.settled(x, y) == self.due(x, y)
    }

    pub open spec fn in_index(&self, node: int) -> bool {
        0 <= node < end_of(self.walk.levels())
    }

    pub open spec fn shaped(&self) -> bool {
        &&& self.walk.wf()
        &&& self.tiles matches Some(f) ==> {
            &&& f.wf()
            &&& f.across == self.walk.levels()[0].0
            &&& f.bottom <= self.walk.levels()[0].1
            &&& self.walk.pending@.len() == 0
            &&& match self.asked {
                Asked::Nothing => true,
                Asked::Relation(node) => level_at(self.walk.levels(), node as int) == 0,
                Asked::Cells(node) => level_at(self.walk.levels(), node as int) == 0,
            }
        }
        &&& self.drained <= self.put_off.records@.len()
        &&& self.drained > 0 ==> self.draining
        &&& !self.two_phase ==> self.put_off.records@.len() == 0
        &&& self.draining ==> self.two_phase && self.asked == Asked::Nothing && self.no_more()
        &&& !self.walk.eligible ==> self.taken@.len() == 0 && self.put_off.records@.len() == 0
        &&& match self.asked {
            Asked::Nothing => true,
            Asked::Relation(node) => self.in_index(node as int),
            Asked::Cells(node) => self.in_index(node as int),
        }
        &&& forall|i: int|
            0 <= i < self.put_off.records@.len() ==> self.in_index(
                #[trigger] self.put_off.records@[i] as int,
            )
    }

    /// No node is left to ask about.
    pub open spec fn no_more(&self) -> bool {
        &&& self.walk.pending@.len() == 0
        &&& self.tiles matches Some(f) ==> f.left == f.right || f.y == f.bottom
    }

    /// No forbidden tile has been read.
    pub open spec fn keeps_off(&self) -> bool {
        forall|i: int, k: int|
            0 <= i < self.read@.len() && 0 <= k < self.forbidden@.len() ==> #[trigger] self.read@[i]
                != #[trigger] self.forbidden@[k]
    }

    pub open spec fn wf(&self) -> bool {
        &&& self.shaped()
        &&& self.keeps_off()
        &&& forall|x: int, y: int|
            0 <= x < self.walk.width && 0 <= y < self.walk.height ==> #[trigger] self.balanced(x, y)
    }

    /// Two states of one visit.
    pub open spec fn same_visit(&self, other: &Visit) -> bool {
        &&& self.walk.same_index(&other.walk)
        &&& self.two_phase == other.two_phase
        &&& self.put_off.limit == other.put_off.limit
        &&& self.forbidden == other.forbidden
        &&& self.tiles is Some == other.tiles is Some
        &&& self.tiles matches Some(f) ==> other.tiles matches Some(g) && f.left == g.left && f.right
            == g.right && f.top == g.top && f.bottom == g.bottom && f.across == g.across
    }

    /// A bound on the calls that are still to come. Every call that goes on lowers it.
    pub open spec fn steps_left(&self) -> int {
        nodes_steps(self.walk.levels(), ids(self.walk.pending@)) + match self.tiles {
            None => 0,
            Some(f) => 3 * f.left_over(),
        } + match self.asked {
            Asked::Nothing => 0,
            Asked::Relation(node) => node_steps(self.walk.levels(), node as int) - 1,
            Asked::Cells(_) => 1,
        } + (self.put_off.records@.len() - self.drained) + count_of(
            self.two_phase && !self.draining,
        )
    }

    /// The walk has ended.
    pub open spec fn ended(&self) -> bool {
        &&& self.no_more()
        &&& self.asked == Asked::Nothing
        &&& self.drained == self.put_off.records@.len()
    }

    /// A visit from the root of a hierarchy.
    pub fn from_root(walk: Walk, q: &QueryOptions, two_phase: bool, limit: usize) -> (r: Visit)
        requires
            walk.wf(),
            forall|x: int, y: int|
                0 <= x < walk.width && 0 <= y < walk.height ==> #[trigger] walk.waiting(x, y) == 1,
        ensures
            r.wf(),
            r.walk == walk,
            r.tiles is None,
            r.two_phase == two_phase,
            !r.draining,
            r.put_off.limit == limit,
            r.put_off.records@.len() == 0,
            r.asked == Asked::Nothing,
            r.forbidden@ == q.forbidden_raw_tiles@,
            r.taken@.len() == 0,
            r.read@.len() == 0,
            r.left@.len() == 0,
    {
        let r = Visit {
            walk,
            tiles: None,
            two_phase,
            draining: false,
            put_off: Schedule::new(limit),
            drained: 0,
            asked: Asked::Nothing,
            taken: Ghost(Seq::empty()),
            read: Ghost(Seq::empty()),
            left: Ghost(Seq::empty()),
            forbidden: Ghost(q.forbidden_raw_tiles@),
        };
        proof {
            assert(r.waiting_summaries() =~= Seq::empty());
            assert forall|x: int, y: int|
                0 <= x < r.walk.width && 0 <= y < r.walk.height implies #[trigger] r.balanced(
                x,
                y,
            ) by {
                assert(r.walk.waiting(x, y) == 1);
            }
        }
        r
    }

    /// A visit of the tiles of a window. The walk has no node pending.
    pub fn over_tiles(
        walk: Walk,
        tiles: FlatTiles,
        q: &QueryOptions,
        two_phase: bool,
        limit: usize,
    ) -> (r: Visit)
        requires
            walk.wf(),
            walk.pending@.len() == 0,
            tiles.wf(),
            tiles.x == tiles.left,
            tiles.y == tiles.top,
            tiles.across == walk.levels()[0].0,
            tiles.bottom <= walk.levels()[0].1,
        ensures
            r.wf(),
            r.walk == walk,
            r.tiles == Some(tiles),
            r.two_phase == two_phase,
            !r.draining,
            r.put_off.limit == limit,
            r.put_off.records@.len() == 0,
            r.asked == Asked::Nothing,
            r.forbidden@ == q.forbidden_raw_tiles@,
            r.taken@.len() == 0,
            r.read@.len() == 0,
            r.left@.len() == 0,
    {
        let r = Visit {
            walk,
            tiles: Some(tiles),
            two_phase,
            draining: false,
            put_off: Schedule::new(limit),
            drained: 0,
            asked: Asked::Nothing,
            taken: Ghost(Seq::empty()),
            read: Ghost(Seq::empty()),
            left: Ghost(Seq::empty()),
            forbidden: Ghost(q.forbidden_raw_tiles@),
        };
        proof {
            assert(r.waiting_summaries() =~= Seq::empty());
            assert forall|x: int, y: int|
                0 <= x < r.walk.width && 0 <= y < r.walk.height implies #[trigger] r.balanced(
                x,
                y,
            ) by {
                assert(ids(r.walk.pending@) =~= Seq::empty());
                assert(r.walk.waiting(x, y) == 0);
            }
        }
        r
    }

    /// The next node of the walk, taken out of it.
    fn pop(&mut self) -> (r: Option<usize>)
        requires
            old(self).shaped(),
            old(self).asked == Asked::Nothing,
            !old(self).draining,
        ensures
            final(self).shaped(),
            final(self).same_visit(old(self)),
            final(self).walk.same_index(&old(self).walk),
            final(self).draining == old(self).draining,
            final(self).put_off == old(self).put_off,
            final(self).drained == old(self).drained,
            final(self).asked == old(self).asked,
            final(self).taken == old(self).taken,
            final(self).read == old(self).read,
            final(self).left == old(self).left,
            r is None ==> old(self).no_more() && final(self).no_more() && final(self).walk.pending@
                == old(self).walk.pending@ && final(self).tiles == old(self).tiles,
            r matches Some(node) ==> {
                &&& final(self).in_index(node as int)
                &&& popped(*old(self), *final(self), node)
                &&& old(self).tiles is Some ==> level_at(old(self).walk.levels(), node as int) == 0
                    && final(self).tiles->0.left_over() == old(self).tiles->0.left_over() - 1
            },
            forall|x: int, y: int|
                #![trigger old(self).coming(x, y)]
                0 <= x < old(self).walk.width && 0 <= y < old(self).walk.height ==> old(self).coming(x, y) == final(self).coming(x, y) + count_of(
                    r is Some && in_node(final(self).walk, r->0 as int, x, y),
                ),
    {
        match self.tiles {
            None => {
                let r = self.walk.next();
                proof {
                    assert forall|x: int, y: int|
                        #![trigger old(self).coming(x, y)]
                        0 <= x < old(self).walk.width && 0 <= y < old(self).walk.height implies old(self).coming(x, y) == self.coming(x, y)
                        + count_of(r is Some && in_node(self.walk, r->0 as int, x, y)) by {
                        assert(old(self).walk.waiting(x, y) == old(self).walk.waiting(x, y));
                    }
                }
                r
            },
            Some(mut f) => {
                let ghost before = f;
                let r = f.next();
                self.tiles = Some(f);
                proof {
                    if let Some(tile) = r {
                        lemma_tile(self.walk, before);
                    }
                    assert forall|x: int, y: int|
                        #![trigger old(self).coming(x, y)]
                        0 <= x < old(self).walk.width && 0 <= y < old(self).walk.height implies old(self).coming(x, y) == self.coming(x, y)
                        + count_of(r is Some && in_node(self.walk, r->0 as int, x, y)) by {
                        let (tx, ty) = self.home(x, y);
                        if r is Some {
                            lemma_tile_holds(self.walk, before, x, y);
                        }
                    }
                }
                r
            },
        }
    }

    /// What comes next: in the first phase the next node to ask about; at the end of it the
    /// summaries that were put off, in the order of the file.
    pub fn turn(&mut self) -> (r: Turn)
        requires
            old(self).wf(),
            old(self).asked == Asked::Nothing,
        ensures
            final(self).wf(),
            final(self).same_visit(old(self)),
            final(self).read == old(self).read,
            final(self).left == old(self).left,
            match r {
                Turn::Ask(node) => {
                    &&& !old(self).draining
                    &&& final(self).asked == Asked::Relation(node)
                    &&& final(self).taken == old(self).taken
                    &&& final(self).put_off == old(self).put_off
                    &&& popped(*old(self), *final(self), node)
                    &&& final(self).draining == old(self).draining
                    &&& final(self).drained == old(self).drained
                },
                Turn::Drain => {
                    &&& final(self).asked == Asked::Nothing
                    &&& final(self).drained == 0
                    &&& final(self).walk.pending@ == old(self).walk.pending@
                    &&& final(self).tiles == old(self).tiles
                    &&& !old(self).draining
                    &&& old(self).two_phase
                    &&& old(self).no_more()
                    &&& final(self).draining
                    &&& final(self).taken == old(self).taken
                    &&& final(self).put_off.records@.to_multiset() == old(self).put_off.records@.to_multiset()
                    &&& forall|i: int, j: int|
                        0 <= i < j < final(self).put_off.records@.len() ==> final(self).put_off.records@[i] <= final(self).put_off.records@[j]
                },
                Turn::Take(node) => {
                    &&& final(self).asked == Asked::Nothing
                    &&& final(self).walk.pending@ == old(self).walk.pending@
                    &&& final(self).tiles == old(self).tiles
                    &&& old(self).draining
                    &&& final(self).draining
                    &&& old(self).drained < old(self).put_off.records@.len()
                    &&& node == old(self).put_off.records@[old(self).drained as int]
                    &&& final(self).drained == old(self).drained + 1
                    &&& final(self).put_off == old(self).put_off
                    &&& final(self).taken@ == old(self).taken@.push(node as int)
                },
                Turn::End => {
                    &&& final(self).ended()
                    &&& old(self).no_more()
                    &&& final(self).taken == old(self).taken
                    &&& final(self).put_off == old(self).put_off
                },
            },
            r != Turn::Drain && !(r is Ask) ==> final(self).draining == old(self).draining,
            r != Turn::End ==> 0 <= final(self).steps_left() < old(self).steps_left(),
    {
        if self.draining {
            if self.drained == self.put_off.records.len() {
                return Turn::End;
            }
            let node: usize = self.put_off.records[self.drained];
            let ghost before = self.waiting_summaries();
            self.drained = self.drained + 1;
            self.taken = Ghost(self.taken@.push(node as int));
            proof {
                assert(before =~= seq![node as int] + self.waiting_summaries());
                assert forall|x: int, y: int|
                    0 <= x < self.walk.width && 0 <= y < self.walk.height implies #[trigger] self.balanced(
                    x,
                    y,
                ) by {
                    assert(old(self).balanced(x, y));
                    lemma_holders_join(
                        self.walk,
                        seq![node as int],
                        self.waiting_summaries(),
                        x,
                        y,
                    );
                    lemma_one(self.walk, node as int, x, y);
                    lemma_push(self.walk, old(self).taken@, node as int, x, y);
                }
                lemma_steps(*self);
            }
            return Turn::Take(node);
        }
        match self.pop() {
            Some(node) => {
                self.asked = Asked::Relation(node);
                proof {
                    assert forall|x: int, y: int|
                        0 <= x < self.walk.width && 0 <= y < self.walk.height implies #[trigger] self.balanced(
                        x,
                        y,
                    ) by {
                        assert(old(self).balanced(x, y));
                        assert(old(self).coming(x, y) == old(self).coming(x, y));
                        lemma_kept(*old(self), *self, x, y);
                    }
                    lemma_steps(*self);
                    if self.tiles is None {
                        let levels = self.walk.levels();
                        assert(ids(old(self).walk.pending@).drop_last() =~= ids(self.walk.pending@));
                    } else {
                        assert(five(0) == 1);
                    }
                }
                Turn::Ask(node)
            },
            None => {
                proof {
                    assert forall|x: int, y: int|
                        0 <= x < self.walk.width && 0 <= y < self.walk.height implies #[trigger] self.balanced(
                        x,
                        y,
                    ) by {
                        assert(old(self).balanced(x, y));
                        assert(old(self).coming(x, y) == old(self).coming(x, y));
                        lemma_kept(*old(self), *self, x, y);
                    }
                }
                if !self.two_phase {
                    return Turn::End;
                }
                let ghost unsorted = *self;
                self.sort();
                self.draining = true;
                proof {
                    let a = unsorted.put_off.records@;
                    let b = self.put_off.records@;
                    assert(a.skip(0) =~= a);
                    assert(b.skip(0) =~= b);
                    a.to_multiset_ensures();
                    b.to_multiset_ensures();
                    assert forall|i: int| 0 <= i < b.len() implies self.in_index(
                        #[trigger] b[i] as int,
                    ) by {
                        assert(b.contains(b[i]));
                        assert(b.to_multiset().count(b[i]) > 0);
                        assert(a.contains(b[i]));
                        let k = a.index_of(b[i]);
                        assert(a[k] == b[i]);
                    }
                    assert forall|x: int, y: int|
                        0 <= x < self.walk.width && 0 <= y < self.walk.height implies #[trigger] self.balanced(
                        x,
                        y,
                    ) by {
                        assert(unsorted.balanced(x, y));
                        lemma_permuted(self.walk, a, b, x, y);
                    }
                    lemma_steps(*self);
                }
                Turn::Drain
            },
        }
    }

    /// Put what was put off in the order of the file.
    fn sort(&mut self)
        ensures
            final(self).put_off.records@.to_multiset() == old(self).put_off.records@.to_multiset(),
            forall|i: int, j: int|
                0 <= i < j < final(self).put_off.records@.len() ==> final(self).put_off.records@[i]
                    <= final(self).put_off.records@[j],
            final(self).put_off.limit == old(self).put_off.limit,
            *final(self) == (Visit { put_off: final(self).put_off, ..*old(self) }),
    {
        let limit: usize = self.put_off.limit;
        let mut held = Schedule::new(limit);
        std::mem::swap(&mut held, &mut self.put_off);
        let records = held.in_file_order();
        self.put_off = Schedule { records, limit };
    }

    /// Take the relation of the node that was asked about.
    pub fn answer(&mut self, relation: Relation) -> (r: Result<Outcome, Error>)
        requires
            old(self).wf(),
            old(self).asked is Relation,
        ensures
            final(self).wf(),
            final(self).same_visit(old(self)),
            final(self).read == old(self).read,
            !final(self).draining,
            final(self).tiles == old(self).tiles,
            final(self).drained == old(self).drained,
            r is Ok ==> 0 <= final(self).steps_left() < old(self).steps_left(),
            step_of(
                level_at(old(self).walk.levels(), old(self).asked->Relation_0 as int),
                relation,
                old(self).walk.eligible,
            ) != Step::Descend ==> final(self).walk.pending@ == old(self).walk.pending@,
            r is Err ==> final(self).asked == old(self).asked && final(self).left == old(self).left
                && final(self).taken == old(self).taken && final(self).put_off.records@
                == old(self).put_off.records@,
            ({
                let node = old(self).asked->Relation_0;
                match step_of(
                    level_at(old(self).walk.levels(), node as int),
                    relation,
                    old(self).walk.eligible,
                ) {
                    Step::Skip => {
                        &&& r == Ok::<Outcome, Error>(Outcome::Skip)
                        &&& final(self).asked == Asked::Nothing
                        &&& final(self).left@ == old(self).left@.push(node as int)
                        &&& final(self).taken == old(self).taken
                        &&& final(self).put_off == old(self).put_off
                    },
                    Step::Descend => {
                        &&& ids(final(self).walk.pending@) == ids(old(self).walk.pending@)
                            + children_of(old(self).walk.levels(), node as int).reverse()
                        &&& r == Ok::<Outcome, Error>(Outcome::Descend)
                        &&& final(self).asked == Asked::Nothing
                        &&& final(self).left == old(self).left
                        &&& final(self).taken == old(self).taken
                        &&& final(self).put_off == old(self).put_off
                    },
                    Step::Summary => if !old(self).two_phase {
                        &&& r == Ok::<Outcome, Error>(Outcome::Take)
                        &&& final(self).asked == Asked::Nothing
                        &&& final(self).left == old(self).left
                        &&& final(self).taken@ == old(self).taken@.push(node as int)
                        &&& final(self).put_off == old(self).put_off
                    } else if old(self).put_off.records@.len() < old(self).put_off.limit {
                        &&& r == Ok::<Outcome, Error>(Outcome::PutOff)
                        &&& final(self).asked == Asked::Nothing
                        &&& final(self).left == old(self).left
                        &&& final(self).taken == old(self).taken
                        &&& final(self).put_off.records@ == old(self).put_off.records@.push(node)
                    } else {
                        r == Err::<Outcome, Error>(Error::ScheduleCapacity)
                    },
                    Step::Boundary => {
                        &&& r == Ok::<Outcome, Error>(Outcome::Cells)
                        &&& final(self).asked == Asked::Cells(node)
                        &&& final(self).left == old(self).left
                        &&& final(self).taken == old(self).taken
                        &&& final(self).put_off == old(self).put_off
                    },
                }
            }),
    {
        let node: usize = match self.asked {
            Asked::Relation(node) => node,
            _ => 0,
        };
        let step = self.walk.decide(node, relation);
        let ghost mid = *self;
        proof {
            lemma_decided(*old(self), mid, node, step);
            let k = level_at(old(self).walk.levels(), node as int);
            lemma_five(k);
            if step == Step::Descend {
                lemma_children_steps(old(self).walk, node as int);
                lemma_steps_join(
                    old(self).walk.levels(),
                    ids(old(self).walk.pending@),
                    children_of(old(self).walk.levels(), node as int).reverse(),
                );
            }
            lemma_steps(Visit { asked: Asked::Nothing, ..mid });
        }
        match step {
            Step::Skip => {
                self.asked = Asked::Nothing;
                self.left = Ghost(self.left@.push(node as int));
                proof {
                    assert forall|x: int, y: int|
                        0 <= x < self.walk.width && 0 <= y < self.walk.height implies #[trigger] self.balanced(
                        x,
                        y,
                    ) by {
                        lemma_decided_at(*old(self), mid, node, step, x, y);
                        lemma_push(self.walk, mid.left@, node as int, x, y);
                    }
                }
                Ok(Outcome::Skip)
            },
            Step::Descend => {
                self.asked = Asked::Nothing;
                proof {
                    assert forall|x: int, y: int|
                        0 <= x < self.walk.width && 0 <= y < self.walk.height implies #[trigger] self.balanced(
                        x,
                        y,
                    ) by {
                        lemma_decided_at(*old(self), mid, node, step, x, y);
                    }
                }
                Ok(Outcome::Descend)
            },
            Step::Summary => {
                if !self.two_phase {
                    self.asked = Asked::Nothing;
                    self.taken = Ghost(self.taken@.push(node as int));
                    proof {
                        assert forall|x: int, y: int|
                            0 <= x < self.walk.width && 0 <= y
                                < self.walk.height implies #[trigger] self.balanced(x, y) by {
                            lemma_decided_at(*old(self), mid, node, step, x, y);
                            lemma_push(self.walk, mid.taken@, node as int, x, y);
                        }
                    }
                    return Ok(Outcome::Take);
                }
                match self.put_off.add(node) {
                    Ok(_) => {
                        self.asked = Asked::Nothing;
                        proof {
                            let a = mid.put_off.records@;
                            let b = self.put_off.records@;
                            assert(mid.waiting_summaries() =~= ids(a));
                            assert(self.waiting_summaries() =~= ids(a).push(node as int));
                            assert forall|i: int| 0 <= i < b.len() implies self.in_index(
                                #[trigger] b[i] as int,
                            ) by {
                                if i < a.len() {
                                    assert(mid.in_index(a[i] as int));
                                }
                            }
                            assert forall|x: int, y: int|
                                0 <= x < self.walk.width && 0 <= y
                                    < self.walk.height implies #[trigger] self.balanced(x, y) by {
                                lemma_decided_at(*old(self), mid, node, step, x, y);
                                lemma_push(self.walk, ids(a), node as int, x, y);
                            }
                        }
                        Ok(Outcome::PutOff)
                    },
                    Err(e) => {
                        proof {
                            assert(self.waiting_summaries() =~= mid.waiting_summaries());
                            assert forall|x: int, y: int|
                                0 <= x < self.walk.width && 0 <= y
                                    < self.walk.height implies #[trigger] self.balanced(x, y) by {
                                lemma_decided_at(*old(self), mid, node, step, x, y);
                            }
                        }
                        Err(e)
                    },
                }
            },
            Step::Boundary => {
                self.asked = Asked::Cells(node);
                proof {
                    assert forall|x: int, y: int|
                        0 <= x < self.walk.width && 0 <= y < self.walk.height implies #[trigger] self.balanced(
                        x,
                        y,
                    ) by {
                        lemma_decided_at(*old(self), mid, node, step, x, y);
                    }
                }
                Ok(Outcome::Cells)
            },
        }
    }

    /// Take how many cells of the boundary tile the geometry touches: whether its raw cells are
    /// read.
    pub fn cells(&mut self, q: &QueryOptions, count: usize) -> (r: Result<bool, Error>)
        requires
            old(self).wf(),
            old(self).asked is Cells,
            old(self).forbidden@ == q.forbidden_raw_tiles@,
        ensures
            final(self).wf(),
            final(self).same_visit(old(self)),
            r == boundary_of(*q, old(self).asked->Cells_0, count as int),
            final(self).taken == old(self).taken,
            final(self).put_off == old(self).put_off,
            final(self).walk.pending@ == old(self).walk.pending@,
            final(self).tiles == old(self).tiles,
            final(self).draining == old(self).draining,
            final(self).drained == old(self).drained,
            r is Ok ==> 0 <= final(self).steps_left() < old(self).steps_left(),
            ({
                let node = old(self).asked->Cells_0 as int;
                match r {
                    Ok(true) => {
                        &&& final(self).asked == Asked::Nothing
                        &&& final(self).read@ == old(self).read@.push(node)
                        &&& final(self).left == old(self).left
                    },
                    Ok(false) => {
                        &&& final(self).asked == Asked::Nothing
                        &&& final(self).left@ == old(self).left@.push(node)
                        &&& final(self).read == old(self).read
                    },
                    Err(_) => *final(self) == *old(self),
                }
            }),
    {
        let node: usize = match self.asked {
            Asked::Cells(node) => node,
            _ => 0,
        };
        let reads = boundary_step(q, node, count)?;
        self.asked = Asked::Nothing;
        if reads {
            self.read = Ghost(self.read@.push(node as int));
            proof {
                assert forall|i: int, k: int|
                    0 <= i < self.read@.len() && 0 <= k
                        < self.forbidden@.len() implies #[trigger] self.read@[i]
                    != #[trigger] self.forbidden@[k] by {
                    if i < old(self).read@.len() {
                        assert(old(self).read@[i] != old(self).forbidden@[k]);
                    } else {
                        assert(q.forbidden_raw_tiles@.contains(q.forbidden_raw_tiles@[k]));
                    }
                }
            }
        } else {
            self.left = Ghost(self.left@.push(node as int));
        }
        proof {
            assert forall|x: int, y: int|
                0 <= x < self.walk.width && 0 <= y < self.walk.height implies #[trigger] self.balanced(
                x,
                y,
            ) by {
                assert(old(self).balanced(x, y));
                lemma_push(self.walk, old(self).read@, node as int, x, y);
                lemma_push(self.walk, old(self).left@, node as int, x, y);
            }
            lemma_steps(*self);
        }
        Ok(reads)
    }
}

proof fn lemma_five(k: int)
    ensures
        five(k) >= 1,
    decreases k,
{
    if k > 0 {
        lemma_five(k - 1);
    }
}

proof fn lemma_nodes_steps(levels: Seq<(int, int, int)>, nodes: Seq<int>)
    ensures
        nodes_steps(levels, nodes) >= 0,
    decreases nodes.len(),
{
    if nodes.len() > 0 {
        lemma_nodes_steps(levels, nodes.drop_last());
        lemma_five(level_at(levels, nodes.last()));
    }
}

proof fn lemma_steps_join(levels: Seq<(int, int, int)>, a: Seq<int>, b: Seq<int>)
    ensures
        nodes_steps(levels, a + b) == nodes_steps(levels, a) + nodes_steps(levels, b),
    decreases b.len(),
{
    if b.len() == 0 {
        assert(a + b =~= a);
    } else {
        assert((a + b).drop_last() =~= a + b.drop_last());
        lemma_steps_join(levels, a, b.drop_last());
    }
}

/// Nodes of one level take as much as one of them as often as there are.
proof fn lemma_level_steps(levels: Seq<(int, int, int)>, nodes: Seq<int>, k: int)
    requires
        forall|i: int| 0 <= i < nodes.len() ==> level_at(levels, #[trigger] nodes[i]) == k,
    ensures
        nodes_steps(levels, nodes) == nodes.len() * (3 * five(k)),
    decreases nodes.len(),
{
    if nodes.len() > 0 {
        let front = nodes.drop_last();
        assert forall|i: int| 0 <= i < front.len() implies level_at(levels, #[trigger] front[i])
            == k by {
            assert(front[i] == nodes[i]);
        }
        lemma_level_steps(levels, front, k);
        assert(nodes.last() == nodes[nodes.len() - 1]);
        let n = nodes.len() as int;
        let c = 3 * five(k);
        assert(n * c == (n - 1) * c + c) by (nonlinear_arith);
    }
}

/// The children of a node take less than the node.
proof fn lemma_children_steps(w: Walk, node: int)
    requires
        w.wf(),
        0 <= node < end_of(w.levels()),
        level_at(w.levels(), node) > 0,
    ensures
        nodes_steps(w.levels(), children_of(w.levels(), node).reverse()) < node_steps(
            w.levels(),
            node,
        ) - 1,
{
    let levels = w.levels();
    let all = children_of(levels, node);
    let back = all.reverse();
    let k = level_at(levels, node);
    assert forall|i: int| 0 <= i < back.len() implies level_at(levels, #[trigger] back[i]) == k
        - 1 by {
        crate::hierarchy::a_child_is_a_node_below(
            w.width as int,
            w.height as int,
            w.layout.tile_edge as int,
            w.flat,
            node,
            all.len() - 1 - i,
        );
    }
    lemma_level_steps(levels, back, k - 1);
    lemma_five(k - 1);
    let n = back.len() as int;
    let c = 3 * five(k - 1);
    assert(n <= 4);
    assert(n * c <= 4 * c) by (nonlinear_arith)
        requires
            0 <= n <= 4,
            c >= 0,
    ;
}

/// What is left is never less than nothing.
proof fn lemma_steps(v: Visit)
    requires
        v.shaped(),
    ensures
        v.steps_left() >= 0,
{
    lemma_nodes_steps(v.walk.levels(), ids(v.walk.pending@));
    if let Asked::Relation(node) = v.asked {
        lemma_five(level_at(v.walk.levels(), node as int));
    }
    if let Some(f) = v.tiles {
        let h = f.bottom - f.y;
        let w = f.right - f.left;
        if h > 0 {
            assert(h * w >= w) by (nonlinear_arith)
                requires
                    h >= 1,
                    w >= 0,
            ;
        } else {
            assert(0 * w == 0);
        }
    }
}

proof fn lemma_push(w: Walk, nodes: Seq<int>, node: int, x: int, y: int)
    ensures
        holders(w, nodes.push(node), x, y) == holders(w, nodes, x, y) + count_of(
            in_node(w, node, x, y),
        ),
{
    assert(nodes.push(node).drop_last() =~= nodes);
}

proof fn lemma_one(w: Walk, node: int, x: int, y: int)
    ensures
        holders(w, seq![node], x, y) == count_of(in_node(w, node, x, y)),
{
    assert(seq![node].drop_last() =~= Seq::<int>::empty());
    assert(seq![node].last() == node);
    assert(holders(w, Seq::<int>::empty(), x, y) == 0);
}

/// What is put off and settled counts the same on two walks over one index.
proof fn lemma_kept(a: Visit, b: Visit, x: int, y: int)
    requires
        a.walk.same_index(&b.walk),
        a.put_off.records@ == b.put_off.records@,
        a.drained == b.drained,
        a.taken == b.taken,
        a.read == b.read,
        a.left == b.left,
    ensures
        holders(a.walk, a.waiting_summaries(), x, y) == holders(
            b.walk,
            b.waiting_summaries(),
            x,
            y,
        ),
        a.settled(x, y) == b.settled(x, y),
{
    lemma_same_walk(a.walk, b.walk, a.waiting_summaries(), x, y);
    lemma_same_walk(a.walk, b.walk, a.taken@, x, y);
    lemma_same_walk(a.walk, b.walk, a.read@, x, y);
    lemma_same_walk(a.walk, b.walk, a.left@, x, y);
}

spec fn only_walk_changed(a: Visit, b: Visit) -> bool {
    b == (Visit { walk: b.walk, ..a })
}

proof fn lemma_decided(a: Visit, b: Visit, node: usize, step: Step)
    requires
        a.wf(),
        a.asked == Asked::Relation(node),
        only_walk_changed(a, b),
        b.walk.wf(),
        b.walk.same_index(&a.walk),
        step == Step::Descend || b.walk.pending@ == a.walk.pending@,
        step == Step::Descend ==> level_at(a.walk.levels(), node as int) > 0,
    ensures
        b.shaped(),
        !b.draining,
        b.drained == 0,
        b.same_visit(&a),
{
}

proof fn lemma_decided_at(a: Visit, b: Visit, node: usize, step: Step, x: int, y: int)
    requires
        a.wf(),
        a.asked == Asked::Relation(node),
        only_walk_changed(a, b),
        b.walk.same_index(&a.walk),
        0 <= x < a.walk.width,
        0 <= y < a.walk.height,
        b.walk.waiting(x, y) == a.walk.waiting(x, y) + (if step == Step::Descend && in_node(
            a.walk,
            node as int,
            x,
            y,
        ) {
            1int
        } else {
            0
        }),
    ensures
        b.coming(x, y) + (if step == Step::Descend {
            0
        } else {
            count_of(in_node(b.walk, node as int, x, y))
        }) + holders(b.walk, b.waiting_summaries(), x, y) + b.settled(x, y) == b.due(x, y),
{
    assert(a.balanced(x, y));
    lemma_kept(a, b, x, y);
}

/// The tile that comes next is a tile of the index.
proof fn lemma_tile(w: Walk, f: FlatTiles)
    requires
        w.wf(),
        f.wf(),
        f.across == w.levels()[0].0,
        f.bottom <= w.levels()[0].1,
        f.x < f.right,
        f.y < f.bottom,
    ensures
        0 <= f.y * f.across + f.x < end_of(w.levels()),
        level_at(w.levels(), f.y * f.across + f.x) == 0,
        w.levels()[0].2 == 0,
        f.y * w.layout.tile_edge < w.height,
        f.x * w.layout.tile_edge < w.width,
        (f.x * w.layout.tile_edge) / (w.layout.tile_edge as int) == f.x,
        (f.y * w.layout.tile_edge) / (w.layout.tile_edge as int) == f.y,
        edge_at(w.layout.tile_edge as int, 0) == w.layout.tile_edge,
{
    let ww = w.width as int;
    let hh = w.height as int;
    let e = w.layout.tile_edge as int;
    let fx = f.x as int;
    let fy = f.y as int;
    crate::model::lemma_ceil_div(ww, e);
    crate::model::lemma_ceil_div(hh, e);
    crate::layout::lemma_levels(
        crate::model::ceil_div(ww, e),
        crate::model::ceil_div(hh, e),
        0,
        w.flat,
    );
    lemma_level_counts(ww, hh, e, w.flat, 0);
    vstd::arithmetic::power2::lemma2_to64();
    assert(edge_at(e, 0) == e);
    let cw = crate::model::ceil_div(ww, e);
    let ch = crate::model::ceil_div(hh, e);
    assert(fx * e < ww) by {
        assert(fx * e <= (cw - 1) * e) by (nonlinear_arith)
            requires
                fx <= cw - 1,
                e >= 1,
        ;
        assert((cw - 1) * e == cw * e - e) by (nonlinear_arith);
    }
    assert(fy * e < hh) by {
        assert(fy * e <= (ch - 1) * e) by (nonlinear_arith)
            requires
                fy <= ch - 1,
                e >= 1,
        ;
        assert((ch - 1) * e == ch * e - e) by (nonlinear_arith);
    }
    vstd::arithmetic::div_mod::lemma_div_multiples_vanish(fx, e);
    vstd::arithmetic::div_mod::lemma_div_multiples_vanish(fy, e);
    assert(e * fx == fx * e) by (nonlinear_arith);
    assert(e * fy == fy * e) by (nonlinear_arith);
    assert(fx * e >= 0 && fy * e >= 0) by (nonlinear_arith)
        requires
            fx >= 0,
            fy >= 0,
            e >= 1,
    ;
    let home = crate::hierarchy::lemma_home(ww, hh, e, w.flat, 0, fx * e, fy * e);
    assert(home == fy * f.across + fx);
}

/// The tile that comes next holds the cells whose tile it is.
proof fn lemma_tile_holds(w: Walk, f: FlatTiles, x: int, y: int)
    requires
        w.wf(),
        f.wf(),
        f.across == w.levels()[0].0,
        f.bottom <= w.levels()[0].1,
        f.x < f.right,
        f.y < f.bottom,
        0 <= x < w.width,
        0 <= y < w.height,
    ensures
        in_node(w, f.y * f.across + f.x, x, y) == (x / (w.layout.tile_edge as int) == f.x && y / (
        w.layout.tile_edge as int) == f.y),
{
    let ww = w.width as int;
    let hh = w.height as int;
    let e = w.layout.tile_edge as int;
    let a = f.across as int;
    let fx = f.x as int;
    let fy = f.y as int;
    lemma_tile(w, f);
    crate::layout::a_level_divides_the_grid(ww, hh, e, w.flat, 0, x, y, fy * a + fx);
    lemma_level_counts(ww, hh, e, w.flat, 0);
    crate::model::lemma_ceil_div(ww, e);
    vstd::arithmetic::div_mod::lemma_fundamental_div_mod(x, e);
    vstd::arithmetic::div_mod::lemma_div_pos_is_pos(x, e);
    let cx = x / e;
    let cy = y / e;
    assert(cx < a) by (nonlinear_arith)
        requires
            x == e * cx + x % e,
            x % e >= 0,
            x < ww,
            ww <= a * e,
            e >= 1,
    ;
    if cy * a + cx == fy * a + fx {
        vstd::arithmetic::div_mod::lemma_fundamental_div_mod_converse(cy * a + cx, a, cy, cx);
        vstd::arithmetic::div_mod::lemma_fundamental_div_mod_converse(fy * a + fx, a, fy, fx);
    }
}

/// Reordering a list of nodes does not change how many of them hold a cell.
proof fn lemma_permuted(w: Walk, a: Seq<usize>, b: Seq<usize>, x: int, y: int)
    requires
        a.to_multiset() == b.to_multiset(),
    ensures
        holders(w, ids(a), x, y) == holders(w, ids(b), x, y),
    decreases a.len(),
{
    a.to_multiset_ensures();
    b.to_multiset_ensures();
    if a.len() > 0 {
        let n = a.len() - 1;
        let last = a[n];
        assert(a.contains(last));
        assert(b.to_multiset().count(last) > 0);
        let j = b.index_of(last);
        assert(b.contains(last));
        assert(b[j] == last);
        let rest = b.remove(j);
        let front = a.remove(n);
        assert(front =~= a.drop_last());
        lemma_permuted(w, front, rest, x, y);
        assert(ids(a).drop_last() =~= ids(front));
        let left = ids(b.subrange(0, j));
        let right = ids(b.subrange(j + 1, b.len() as int));
        assert(ids(b) =~= left + seq![last as int] + right);
        assert(ids(rest) =~= left + right);
        lemma_holders_join(w, left + seq![last as int], right, x, y);
        lemma_holders_join(w, left, seq![last as int], x, y);
        lemma_holders_join(w, left, right, x, y);
        lemma_one(w, last as int, x, y);
    } else {
        assert(ids(a) =~= ids(b));
    }
}

/// Over a whole walk each cell of the grid, or of the tiles of the window, is settled once: in
/// one summary taken, in one tile read, or in one node that contributes nothing.
pub proof fn a_whole_walk_settles_each_cell_once(v: Visit, x: int, y: int)
    requires
        v.wf(),
        v.ended(),
        0 <= x < v.walk.width,
        0 <= y < v.walk.height,
    ensures
        v.settled(x, y) == v.due(x, y),
{
    assert(v.balanced(x, y));
    assert(ids(v.walk.pending@) =~= Seq::empty());
    assert(v.waiting_summaries() =~= Seq::empty());
}

/// Where summaries do not answer, a whole walk takes none: each cell is read from a raw page, or
/// lies in a node that contributes nothing.
pub proof fn a_walk_without_summaries_reads_each_cell(v: Visit, x: int, y: int)
    requires
        v.wf(),
        v.ended(),
        !v.walk.eligible,
        0 <= x < v.walk.width,
        0 <= y < v.walk.height,
    ensures
        v.taken@.len() == 0,
        holders(v.walk, v.read@, x, y) + holders(v.walk, v.left@, x, y) == v.due(x, y),
{
    a_whole_walk_settles_each_cell_once(v, x, y);
}

/// A forbidden tile is never read raw.
pub proof fn a_forbidden_tile_is_never_read(v: Visit, tile: usize)
    requires
        v.wf(),
        v.forbidden@.contains(tile),
    ensures
        !v.read@.contains(tile as int),
{
    let k = v.forbidden@.index_of(tile);
    if v.read@.contains(tile as int) {
        let i = v.read@.index_of(tile as int);
        assert(v.read@[i] != v.forbidden@[k]);
    }
}

/// The ranges in which put-off summaries are read ahead: none without a page, else the cheapest
/// ones of at most `per_page` records.
pub fn drain_ranges<C: Cancel>(records: &Vec<usize>, page_bytes: usize, per_page: usize, cancel: &C) -> (r:
    Result<Vec<(usize, usize)>, Error>)
    ensures
        if page_bytes == 0 {
            r matches Ok(ranges) && ranges@.len() == 0
        } else if records@.len() > MAX_RECORDS || per_page == 0 {
            r == Err::<Vec<(usize, usize)>, Error>(Error::ScheduleBound)
        } else if !ascending(records@) {
            r == Err::<Vec<(usize, usize)>, Error>(Error::ScheduleOrder)
        } else {
            ended(
                cancel,
                r,
                if cost_overflows(records@, per_page as int) {
                    r == Err::<Vec<(usize, usize)>, Error>(Error::ScheduleCost)
                } else if span_overflows(records@, per_page as int) {
                    r == Err::<Vec<(usize, usize)>, Error>(Error::ScheduleRange)
                } else {
                    r matches Ok(ranges) && exists|starts: Seq<int>| #[trigger]
                        optimal(records@, per_page as int, records@.len() as int, starts)
                            && ranges@ == ranges_of(records@, records@.len() as int, starts)
                },
            )
        },
{
    if page_bytes == 0 {
        return Ok(Vec::new());
    }
    plan(records.as_slice(), per_page, cancel)
}

} // verus!
