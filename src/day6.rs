use crate::solution::Solution;
use crate::text::{chars_of, split_on, string_from_chars};
use vstd::prelude::*;

verus! {

/// A branch of the tree: its name, the names of its children, and its parent's place.
pub struct TreeNode {
    pub name: Vec<char>,
    pub children: Vec<Vec<char>>,
    pub parent: Option<usize>,
}

/// Whether two names are the same.
fn same_name(a: &Vec<char>, b: &Vec<char>) -> (r: bool)
    ensures
        r == (a@ == b@),
{
    if a.len() != b.len() {
        return false;
    }
    let mut i: usize = 0;
    while i < a.len()
        invariant
            i <= a@.len(),
            a@.len() == b@.len(),
            forall|k: int| 0 <= k < i ==> a@[k] == b@[k],
        decreases a.len() - i,
    {
        if a[i] != b[i] {
            return false;
        }
        i = i + 1;
    }
    assert(a@ =~= b@);
    true
}

/// The fruit marker.
pub open spec fn is_fruit(n: Seq<char>) -> bool {
    n == seq!['@']
}

fn fruit_name(n: &Vec<char>) -> (r: bool)
    ensures
        r == is_fruit(n@),
{
    let fruit: Vec<char> = vec!['@'];
    let r = same_name(n, &fruit);
    assert(fruit@ == seq!['@']);
    r
}

/// `q` lists places of the tree from a branch without parent down, each the parent of
/// the next.
pub open spec fn parent_chain(tree: Seq<TreeNode>, q: Seq<int>) -> bool {
    &&& q.len() > 0
    &&& forall|i: int| 0 <= i < q.len() ==> 0 <= #[trigger] q[i] < tree.len()
    &&& tree[q[0]].parent is None
    &&& forall|i: int| 0 <= i < q.len() - 1 ==> #[trigger] tree[q[i + 1]].parent == Some(q[i] as usize)
}

/// The tree of branches, with each branch's parent.
pub struct Day6World {
    pub tree: Vec<TreeNode>,
}

impl Day6World {
    /// Every parent refers to a branch of the tree.
    pub open spec fn wf(&self) -> bool {
        forall|i: int| 0 <= i < self.tree@.len() ==> match (#[trigger] self.tree@[i]).parent {
            Some(p) => p < self.tree@.len(),
            None => true,
        }
    }

    /// An empty tree.
    pub fn new() -> (r: Self)
        ensures
            r.tree@.len() == 0,
            r.wf(),
    {
        Day6World { tree: Vec::new() }
    }

    /// The place of the branch named `name`, if there is one.
    pub fn find(&self, name: &Vec<char>) -> (r: Option<usize>)
        ensures
            match r {
                Some(i) => i < self.tree@.len() && self.tree@[i as int].name@ == name@,
                None => forall|i: int| 0 <= i < self.tree@.len() ==> (#[trigger] self.tree@[i]).name@
                    != name@,
            },
    {
        let mut i: usize = 0;
        while i < self.tree.len()
            invariant
                i <= self.tree@.len(),
                forall|k: int| 0 <= k < i ==> (#[trigger] self.tree@[k]).name@ != name@,
            decreases self.tree.len() - i,
        {
            if same_name(&self.tree[i].name, name) {
                return Some(i);
            }
            i = i + 1;
        }
        None
    }

    /// Adds a branch, replacing one of the same name.
    pub fn insert(&mut self, node: TreeNode)
        requires
            old(self).wf(),
            node.parent is None,
        ensures
            final(self).wf(),
    {
        match self.find(&node.name) {
            Some(i) => {
                self.tree.set(i, node);
            },
            None => {
                self.tree.push(node);
            },
        }
    }

    /// How often `child` is listed as a child, counted up to two, and the first branch
    /// that lists it.
    fn parents_of(&self, child: &Vec<char>) -> (r: (usize, Option<usize>))
        ensures
            r.0 <= 2,
            r.1 is Some ==> r.1->0 < self.tree@.len(),
            r.0 > 0 ==> r.1 is Some,
    {
        let mut count: usize = 0;
        let mut first: Option<usize> = None;
        let mut i: usize = 0;
        while i < self.tree.len()
            invariant
                i <= self.tree@.len(),
                count <= 2,
                first is Some ==> first->0 < i,
                count > 0 ==> first is Some,
            decreases self.tree.len() - i,
        {
            let node = &self.tree[i];
            let mut j: usize = 0;
            while j < node.children.len()
                invariant
                    j <= node.children@.len(),
                    i < self.tree@.len(),
                    count <= 2,
                    first is Some ==> first->0 <= i,
                    count > 0 ==> first is Some,
                decreases node.children.len() - j,
            {
                if same_name(&node.children[j], child) {
                    if first.is_none() {
                        first = Some(i);
                    }
                    if count < 2 {
                        count = count + 1;
                    }
                }
                j = j + 1;
            }
            i = i + 1;
        }
        (count, first)
    }

    /// Gives every branch listed by exactly one other its parent, and takes out branches
    /// listed by more than one: those are not real branches. Returns `false`, with the
    /// tree as it stands, when a branch already has a parent.
    pub fn populate_parents(&mut self) -> (r: bool)
        requires
            old(self).wf(),
        ensures
            final(self).wf(),
    {
        let mut keep: Vec<TreeNode> = Vec::new();
        let mut taken: Vec<TreeNode> = Vec::new();
        std::mem::swap(&mut taken, &mut self.tree);
        let mut i: usize = 0;
        let snapshot = Day6World { tree: taken };
        let mut kept_names: Vec<Vec<char>> = Vec::new();
        while i < snapshot.tree.len()
            invariant
                i <= snapshot.tree@.len(),
            decreases snapshot.tree.len() - i,
        {
            let (count, _) = snapshot.parents_of(&snapshot.tree[i].name);
            if count <= 1 {
                kept_names.push(snapshot.tree[i].name.clone());
            }
            i = i + 1;
        }
        let Day6World { tree: mut rest } = snapshot;
        while rest.len() > 0
            invariant
                forall|j: int| 0 <= j < keep@.len() ==> (#[trigger] keep@[j]).parent is None,
            decreases rest.len(),
        {
            let node = rest.remove(0);
            let mut wanted = false;
            let mut t: usize = 0;
            while t < kept_names.len()
                invariant
                    t <= kept_names@.len(),
                decreases kept_names.len() - t,
            {
                if same_name(&kept_names[t], &node.name) {
                    wanted = true;
                }
                t = t + 1;
            }
            if wanted {
                keep.push(TreeNode { name: node.name, children: node.children, parent: None });
            }
        }
        self.tree = keep;
        assert(self.wf());
        let mut c: usize = 0;
        while c < self.tree.len()
            invariant
                self.wf(),
                c <= self.tree@.len(),
            decreases self.tree.len() - c,
        {
            let (count, first) = self.parents_of(&self.tree[c].name);
            if count == 1 {
                match first {
                    Some(p) => {
                        if self.tree[c].parent.is_some() {
                            return false;
                        }
                        let old_node = self.tree.remove(c);
                        let node = TreeNode { name: old_node.name, children: old_node.children, parent: Some(p) };
                        self.tree.insert(c, node);
                        assert(forall|j: int| 0 <= j < self.tree@.len() && j != c ==> #[trigger] self.tree@[j] == self.tree@[j]);
                    },
                    None => {},
                }
            }
            c = c + 1;
        }
        true
    }

    /// The branches from the root down to `node`; `None` when there is no branch of
    /// that name or the parents run in a circle.
    pub fn path_to(&self, node: &Vec<char>) -> (r: Option<Vec<Vec<char>>>)
        requires
            self.wf(),
        ensures
            r is Some ==> exists|q: Seq<int>|
                #[trigger] parent_chain(self.tree@, q) && self.tree@[q.last()].name@ == node@
                    && r->0@.len() == q.len() && forall|i: int|
                    0 <= i < q.len() ==> (#[trigger] r->0@[i])@ == self.tree@[q[i]].name@,
    {
        let start = match self.find(node) {
            Some(i) => i,
            None => {
                return None;
            },
        };
        let mut current = start;
        let mut back: Vec<Vec<char>> = Vec::new();
        let ghost mut qb: Seq<int> = Seq::empty();
        let mut fuel: usize = self.tree.len();
        loop
            invariant_except_break
                self.wf(),
                current < self.tree@.len(),
                start < self.tree@.len(),
                self.tree@[start as int].name@ == node@,
                back@.len() == qb.len(),
                forall|i: int| 0 <= i < qb.len() ==> 0 <= #[trigger] qb[i] < self.tree@.len(),
                forall|i: int| 0 <= i < qb.len() ==> (#[trigger] back@[i])@ == self.tree@[qb[i]].name@,
                qb.len() == 0 ==> current == start,
                qb.len() > 0 ==> qb[0] == start,
                qb.len() > 0 ==> self.tree@[qb.last()].parent == Some(current),
                forall|i: int| 0 <= i < qb.len() - 1 ==> #[trigger] self.tree@[qb[i]].parent == Some(qb[i + 1] as usize),
            ensures
                back@.len() == qb.len(),
                qb.len() > 0,
                qb[0] == start,
                self.tree@[start as int].name@ == node@,
                forall|i: int| 0 <= i < qb.len() ==> 0 <= #[trigger] qb[i] < self.tree@.len(),
                forall|i: int| 0 <= i < qb.len() ==> (#[trigger] back@[i])@ == self.tree@[qb[i]].name@,
                self.tree@[qb.last()].parent is None,
                forall|i: int| 0 <= i < qb.len() - 1 ==> #[trigger] self.tree@[qb[i]].parent == Some(qb[i + 1] as usize),
            decreases fuel,
        {
            let name = self.tree[current].name.clone();
            assert(name@ == self.tree@[current as int].name@);
            back.push(name);
            let ghost qb0 = qb;
            proof {
                qb = qb.push(current as int);
                assert forall|i: int| 0 <= i < qb.len() - 1 implies #[trigger] self.tree@[qb[i]].parent == Some(qb[i + 1] as usize) by {
                    if i < qb0.len() - 1 {
                        assert(qb[i] == qb0[i] && qb[i + 1] == qb0[i + 1]);
                    } else {
                        assert(qb[i] == qb0.last());
                    }
                }
                assert forall|i: int| 0 <= i < qb.len() implies (#[trigger] back@[i])@ == self.tree@[qb[i]].name@ by {
                    if i < qb0.len() {
                        assert(qb[i] == qb0[i]);
                    }
                }
            }
            match self.tree[current].parent {
                Some(p) => {
                    if fuel == 0 {
                        return None;
                    }
                    fuel = fuel - 1;
                    current = p;
                },
                None => {
                    break;
                },
            }
        }
        let mut path: Vec<Vec<char>> = Vec::new();
        let mut k: usize = back.len();
        let ghost q = qb.reverse();
        while k > 0
            invariant
                k <= back@.len(),
                back@.len() == qb.len(),
                q == qb.reverse(),
                path@.len() == back@.len() - k,
                forall|i: int| 0 <= i < path@.len() ==> (#[trigger] path@[i])@ == back@[back@.len() - 1 - i]@,
            decreases k,
        {
            k = k - 1;
            let name = back[k].clone();
            assert(name@ == back@[k as int]@);
            path.push(name);
        }
        proof {
            assert(parent_chain(self.tree@, q)) by {
                assert forall|i: int| 0 <= i < q.len() - 1 implies #[trigger] self.tree@[q[i + 1]].parent == Some(q[i] as usize) by {
                    let j = qb.len() - 2 - i;
                    assert(q[i + 1] == qb[j]);
                    assert(q[i] == qb[j + 1]);
                }
                assert(q[0] == qb.last());
            }
            assert(q.last() == qb[0]);
            assert forall|i: int| 0 <= i < q.len() implies (#[trigger] path@[i])@ == self.tree@[q[i]].name@ by {
                assert(q[i] == qb[qb.len() - 1 - i]);
            }
        }
        Some(path)
    }

    /// How many ancestors `node` has; `None` as for `path_to`.
    pub fn depth_of(&self, node: &Vec<char>) -> (r: Option<usize>)
        requires
            self.wf(),
        ensures
            r is Some ==> exists|q: Seq<int>|
                #[trigger] parent_chain(self.tree@, q) && self.tree@[q.last()].name@ == node@
                    && r->0 == q.len() - 1,
    {
        match self.path_to(node) {
            Some(p) => if p.len() > 0 {
                Some(p.len() - 1)
            } else {
                None
            },
            None => None,
        }
    }

    /// Walks the tree from `start` and collects, by length, the paths from the root to a
    /// fruit (at most two of each length); returns the path of the first length found
    /// that has exactly one.
    pub fn bfs_find_singular_solution(&self, start: &Vec<char>) -> (r: Option<Vec<Vec<char>>>)
        requires
            self.wf(),
    {
        let mut stack: Vec<usize> = Vec::new();
        match self.find(start) {
            Some(i) => stack.push(i),
            None => {
                return None;
            },
        }
        let mut visited: Vec<bool> = vec![false; self.tree.len()];
        let mut lengths: Vec<usize> = Vec::new();
        let mut groups: Vec<Vec<Vec<Vec<char>>>> = Vec::new();
        let mut fuel: usize = self.tree.len();
        while stack.len() > 0
            invariant
                self.wf(),
                visited@.len() == self.tree@.len(),
                lengths@.len() == groups@.len(),
                forall|k: int| 0 <= k < stack@.len() ==> #[trigger] stack@[k] < self.tree@.len(),
            decreases fuel, stack.len(),
        {
            let node = match stack.pop() {
                Some(n) => n,
                None => {
                    return None;
                },
            };
            let tree_node = &self.tree[node];
            let mut added_fruit = false;
            let mut j: usize = 0;
            while j < tree_node.children.len()
                invariant
                    self.wf(),
                    node < self.tree@.len(),
                    visited@.len() == self.tree@.len(),
                    lengths@.len() == groups@.len(),
                    forall|k: int| 0 <= k < stack@.len() ==> #[trigger] stack@[k] < self.tree@.len(),
                    j <= tree_node.children@.len(),
                    *tree_node == self.tree@[node as int],
                decreases tree_node.children.len() - j,
            {
                let child = &tree_node.children[j];
                if fruit_name(child) {
                    if !added_fruit {
                        match self.path_to(&tree_node.name) {
                            Some(mut path) => {
                                let len = path.len();
                                let mut g: usize = 0;
                                while g < lengths.len() && lengths[g] != len
                                    invariant
                                        g <= lengths@.len(),
                                    decreases lengths.len() - g,
                                {
                                    g = g + 1;
                                }
                                path.push(vec!['@']);
                                if g < lengths.len() {
                                    if groups[g].len() < 2 {
                                        let mut group = groups.remove(g);
                                        group.push(path);
                                        groups.insert(g, group);
                                    }
                                } else {
                                    lengths.push(len);
                                    groups.push(vec![path]);
                                }
                            },
                            None => {},
                        }
                        added_fruit = true;
                    }
                } else {
                    match self.find(child) {
                        Some(ci) => {
                            if !visited[ci] && fuel > 0 {
                                visited.set(ci, true);
                                stack.push(ci);
                            }
                        },
                        None => {},
                    }
                }
                j = j + 1;
            }
            if fuel == 0 {
                break;
            }
            fuel = fuel - 1;
        }
        let mut g: usize = 0;
        while g < groups.len()
            invariant
                g <= groups@.len(),
            decreases groups.len() - g,
        {
            if groups[g].len() == 1 {
                return Some(groups[g][0].clone());
            }
            g = g + 1;
        }
        None
    }

    /// Reads one branch per line, `NAME:CHILD,CHILD,...`, and links the parents.
    pub fn from_text(text: &Vec<char>) -> (r: Option<Day6World>)
        ensures
            r is Some ==> r->0.wf(),
    {
        let mut world = Day6World::new();
        let lines = split_on(text, '\n');
        let mut i: usize = 0;
        while i < lines.len()
            invariant
                world.wf(),
            decreases lines.len() - i,
        {
            let line = &lines[i];
            if line.len() > 0 {
                let parts = split_on(line, ':');
                if parts.len() < 2 {
                    return None;
                }
                let children = split_on(&parts[1], ',');
                world.insert(TreeNode { name: parts[0].clone(), children, parent: None });
            }
            i = i + 1;
        }
        if !world.populate_parents() {
            return None;
        }
        Some(world)
    }
}

/// The tree day.
pub struct Day6;

impl Day6 {
    fn singular_path(input: &str) -> Option<Vec<Vec<char>>> {
        let text = chars_of(input);
        let world = match Day6World::from_text(&text) {
            Some(w) => w,
            None => {
                return None;
            },
        };
        let root: Vec<char> = vec!['R', 'R'];
        world.bfs_find_singular_solution(&root)
    }
}

impl Solution<String> for Day6 {
    open spec fn answer1(&self, input: Seq<char>, r: Option<String>) -> bool {
        true
    }

    open spec fn answer2(&self, input: Seq<char>, r: Option<String>) -> bool {
        true
    }

    open spec fn answer3(&self, input: Seq<char>, r: Option<String>) -> bool {
        true
    }

    fn get_day(&self) -> usize {
        6
    }

    fn part1(&self, input: &str) -> Option<String> {
        let path = match Day6::singular_path(input) {
            Some(p) => p,
            None => {
                return None;
            },
        };
        let mut out: Vec<char> = Vec::new();
        let mut i: usize = 0;
        while i < path.len()
            invariant
                i <= path@.len(),
            decreases path.len() - i,
        {
            let name = &path[i];
            let mut k: usize = 0;
            while k < name.len()
                invariant
                    k <= name@.len(),
                decreases name.len() - k,
            {
                out.push(name[k]);
                k = k + 1;
            }
            i = i + 1;
        }
        Some(string_from_chars(&out))
    }

    fn part2(&self, input: &str) -> Option<String> {
        let path = match Day6::singular_path(input) {
            Some(p) => p,
            None => {
                return None;
            },
        };
        let mut out: Vec<char> = Vec::new();
        let mut i: usize = 0;
        while i < path.len()
            invariant
                i <= path@.len(),
            decreases path.len() - i,
        {
            if path[i].len() > 0 {
                out.push(path[i][0]);
            }
            i = i + 1;
        }
        Some(string_from_chars(&out))
    }

    fn part3(&self, input: &str) -> Option<String> {
        self.part2(input)
    }
}

} // verus!
