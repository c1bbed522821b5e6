use vstd::prelude::*;

use crate::graph::VGraph;

verus! {

/// A three-node line: `1 -> 2 -> 3`, each move costing one.
pub struct Ex {}

impl Ex {
    pub fn new() -> (r: Self) {
        Ex {  }
    }
}

impl VGraph for Ex {
    type Node = usize;

    type Dist = i32;

    open spec fn spec_out_edges(&self, node: usize) -> Seq<usize> {
        if node == 1 {
            seq![2usize]
        } else if node == 2 {
            seq![3usize]
        } else {
            Seq::empty()
        }
    }

    open spec fn spec_dist(&self, from: usize, to: usize) -> i32 {
        1
    }

    fn out_edges(&self, node: usize) -> (r: Vec<usize>) {
        let mut v: Vec<usize> = Vec::new();
        if node == 1 {
            v.push(2);
            proof {
                assert(v@ =~= seq![2usize]);
            }
        } else if node == 2 {
            v.push(3);
            proof {
                assert(v@ =~= seq![3usize]);
            }
        } else {
            proof {
                assert(v@ =~= Seq::<usize>::empty());
            }
        }
        v
    }

    fn dist(&self, from: usize, to: usize) -> (r: i32) {
        1
    }
}

/// A ten-node graph full of cycles, with one heavier node: every edge costs
/// one except those leaving node `3`, which cost three.
pub struct Cycles {}

impl VGraph for Cycles {
    type Node = usize;

    type Dist = usize;

    open spec fn spec_out_edges(&self, node: usize) -> Seq<usize> {
        if node == 1 {
            seq![2usize, 3]
        } else if node == 2 {
            seq![3usize, 6]
        } else if node == 3 {
            seq![4usize, 5]
        } else if node == 4 {
            seq![10usize, 5]
        } else if node == 5 {
            seq![1usize]
        } else if node == 6 {
            seq![2usize]
        } else if node == 7 {
            seq![8usize]
        } else if node == 8 {
            seq![9usize]
        } else if node == 9 {
            seq![10usize]
        } else if node == 10 {
            seq![1usize]
        } else {
            Seq::empty()
        }
    }

    open spec fn spec_dist(&self, from: usize, to: usize) -> usize {
        if from == 3 {
            3
        } else {
            1
        }
    }

    fn out_edges(&self, node: usize) -> (r: Vec<usize>) {
        let mut v: Vec<usize> = Vec::new();
        if node == 1 {
            v.push(2);
            v.push(3);
        } else if node == 2 {
            v.push(3);
            v.push(6);
        } else if node == 3 {
            v.push(4);
            v.push(5);
        } else if node == 4 {
            v.push(10);
            v.push(5);
        } else if node == 5 {
            v.push(1);
        } else if node == 6 {
            v.push(2);
        } else if node == 7 {
            v.push(8);
        } else if node == 8 {
            v.push(9);
        } else if node == 9 {
            v.push(10);
        } else if node == 10 {
            v.push(1);
        }
        proof {
            assert(v@ =~= self.spec_out_edges(node));
        }
        v
    }

    fn dist(&self, from: usize, to: usize) -> (r: usize) {
        if from == 3 {
            3
        } else {
            1
        }
    }
}

/// One situation of the ring puzzle: where the marker stands and the running
/// sum of the tiles it has visited.
#[derive(Clone, Copy, Eq, Hash, Debug)]
pub struct State {
    pub position: usize,
    pub sum: i32,
}

impl PartialEq for State {
    fn eq(&self, other: &State) -> (r: bool) {
        self.position == other.position && self.sum == other.sum
    }
}

impl vstd::std_specs::cmp::PartialEqSpecImpl for State {
    open spec fn obeys_eq_spec() -> bool {
        true
    }

    open spec fn eq_spec(&self, other: &State) -> bool {
        self.position == other.position && self.sum == other.sum
    }
}

/// Tiles that loop around in a ring. A move steps the marker to a
/// neighboring tile and adds that tile's value to the running sum; each move
/// costs one. A negative sum ends the game, so such a state has no outgoing
/// moves; a move whose sum would leave the range of `i32` is not offered.
pub struct RingPuzzle {
    pub spaces: Vec<i32>,
}

impl RingPuzzle {
    pub fn new(spaces: Vec<i32>) -> (r: Self)
        ensures
            r.spaces@ == spaces@,
    {
        RingPuzzle { spaces }
    }
}

impl VGraph for RingPuzzle {
    type Node = State;

    type Dist = usize;

    open spec fn spec_out_edges(&self, node: State) -> Seq<State> {
        let n = self.spaces@.len() as int;
        let pos = node.position as int;
        if n == 0 || node.sum < 0 || pos >= n {
            Seq::empty()
        } else {
            let lpos = if pos == 0 {
                n - 1
            } else {
                pos - 1
            };
            let rpos = if pos + 1 == n {
                0
            } else {
                pos + 1
            };
            let ls = node.sum + self.spaces@[lpos];
            let rs = node.sum + self.spaces@[rpos];
            if i32::MIN <= ls <= i32::MAX && i32::MIN <= rs <= i32::MAX {
                seq![
                    State { position: lpos as usize, sum: ls as i32 },
                    State { position: rpos as usize, sum: rs as i32 },
                ]
            } else {
                Seq::empty()
            }
        }
    }

    open spec fn spec_dist(&self, from: State, to: State) -> usize {
        1
    }

    fn out_edges(&self, node: State) -> (r: Vec<State>) {
        let n = self.spaces.len();
        let mut v: Vec<State> = Vec::new();
        if n == 0 || node.sum < 0 || node.position >= n {
            proof {
                assert(v@ =~= self.spec_out_edges(node));
            }
            return v;
        }
        let lpos = if node.position == 0 {
            n - 1
        } else {
            node.position - 1
        };
        let rpos = if node.position + 1 == n {
            0
        } else {
            node.position + 1
        };
        let ls = node.sum.checked_add(self.spaces[lpos]);
        let rs = node.sum.checked_add(self.spaces[rpos]);
        match (ls, rs) {
            (Some(a), Some(b)) => {
                v.push(State { position: lpos, sum: a });
                v.push(State { position: rpos, sum: b });
                proof {
                    assert(v@ =~= self.spec_out_edges(node));
                }
            },
            _ => {
                proof {
                    assert(v@ =~= self.spec_out_edges(node));
                }
            },
        }
        v
    }

    fn dist(&self, from: State, to: State) -> (r: usize) {
        1
    }
}

} // verus!
