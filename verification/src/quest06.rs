//! A tree of branches that bear fruits: the one fruit that hangs at a
//! depth of its own, and the way to it.

use crate::grid::rows_view;
use crate::rules::{find_rule, lemma_turn_index, turn_index, turns_of, Rule, Turn};
use crate::text::{
    chars_of, copy_range, find_char, first_place, lines, same_text, split, split_at, split_lines,
    text_of,
};
use vstd::prelude::*;

verus! {

/// How the way to a fruit is written.
#[derive(Debug, Clone, Copy, PartialEq, Eq, Structural)]
pub enum PathMode {
    /// With the full name of each branch.
    Full,
    /// With the first letter of each name only.
    FirstLetter,
}

/// The name of the root.
pub open spec fn root() -> Seq<char> {
    seq!['R', 'R']
}

/// The name of a fruit.
pub open spec fn fruit() -> Seq<char> {
    seq!['@']
}

/// The branch that `line` writes: its name before the first colon, and the
/// names of what grows on it between that colon and the next, with commas
/// between them.
pub open spec fn branch_of_line(line: Seq<char>) -> Option<Turn> {
    let colon = first_place(line, ':') as int;
    if colon < line.len() {
        let rest = line.subrange(colon + 1, line.len() as int);
        let end = first_place(rest, ':') as int;
        Some((line.subrange(0, colon), split(rest.subrange(0, end), ',')))
    } else {
        None
    }
}

/// Every line of `rows` writes a branch.
pub open spec fn all_branches(rows: Seq<Seq<char>>) -> bool {
    forall|i: int| 0 <= i < rows.len() ==> branch_of_line(#[trigger] rows[i]) is Some
}

/// The branches that the lines of `rows` write.
pub open spec fn branches_of(rows: Seq<Seq<char>>) -> Seq<Turn> {
    Seq::new(rows.len(), |i: int| branch_of_line(rows[i]).unwrap())
}

/// Parses the input into the branches of the tree, a line each.
pub fn parse_input(input: &str) -> (rules: Vec<Rule>)
    requires
        all_branches(lines(input@)),
    ensures
        turns_of(rules@) == branches_of(lines(input@)),
{
    let text = chars_of(input);
    let rows = split_lines(&text);
    let ghost listed = lines(text@);
    let mut rules: Vec<Rule> = Vec::new();
    let mut i: usize = 0;
    while i < rows.len()
        invariant
            i <= rows.len(),
            listed == rows_view(rows@),
            all_branches(listed),
            rules@.len() == i,
            forall|j: int| 0 <= j < i ==> (#[trigger] rules@[j])@ == branch_of_line(listed[j]).unwrap(),
        decreases rows.len() - i,
    {
        let line = &rows[i];
        proof {
            assert(listed[i as int] == line@);
            assert(branch_of_line(listed[i as int]) is Some);
        }
        match find_char(line.as_slice(), ':') {
            Some(colon) => {
                assert(colon < line.len());
                let head = copy_range(line.as_slice(), 0, colon);
                let rest = copy_range(line.as_slice(), colon + 1, line.len());
                let end = match find_char(rest.as_slice(), ':') {
                    Some(end) => end,
                    None => rest.len(),
                };
                let tail = copy_range(rest.as_slice(), 0, end);
                let kids = split_at(tail.as_slice(), ',');
                rules.push(Rule { head, kids });
            },
            None => {},
        }
        i += 1;
    }
    proof {
        assert(turns_of(rules@) =~= branches_of(listed));
    }
    rules
}

/// One fruit: how deep it hangs, and the way to it.
pub type Fruit = (nat, Seq<char>);

/// The way `path` with the branch `name` added, in the mode `mode`.
pub open spec fn longer(path: Seq<char>, name: Seq<char>, mode: PathMode) -> Seq<char> {
    match mode {
        PathMode::Full => path + name,
        PathMode::FirstLetter => path.push(name[0]),
    }
}

/// The fruits on the branch `name`, which is `depth` deep and reached by
/// `path`, as far as `fuel` branches further down; those on what grows on
/// it first come first.
pub open spec fn fruits_on(
    tree: Seq<Turn>,
    mode: PathMode,
    name: Seq<char>,
    path: Seq<char>,
    depth: nat,
    fuel: nat,
) -> Seq<Fruit>
    decreases fuel, 1nat, 0nat,
{
    match turn_index(tree, name, tree.len()) {
        Some(i) => fruits_among(tree, mode, tree[i].1, tree[i].1.len(), path, depth, fuel),
        None => Seq::empty(),
    }
}

/// The fruits on the first `n` of `kids`, which grow on a branch that is
/// `depth` deep and reached by `path`.
pub open spec fn fruits_among(
    tree: Seq<Turn>,
    mode: PathMode,
    kids: Seq<Seq<char>>,
    n: nat,
    path: Seq<char>,
    depth: nat,
    fuel: nat,
) -> Seq<Fruit>
    decreases fuel, 0nat, n,
{
    if n == 0 {
        Seq::empty()
    } else {
        let before = fruits_among(tree, mode, kids, (n - 1) as nat, path, depth, fuel);
        let kid = kids[n - 1];
        if kid == fruit() {
            before.push((depth, path + fruit()))
        } else if turn_index(tree, kid, tree.len()) is Some && fuel > 0 {
            before + fruits_on(tree, mode, kid, longer(path, kid, mode), depth + 1, (fuel - 1) as nat)
        } else {
            before
        }
    }
}

/// The branch `name` and all that grows on it is no more than `fuel`
/// branches deep, and every branch has a name if the first letter is what
/// is written of it.
pub open spec fn grows(tree: Seq<Turn>, mode: PathMode, name: Seq<char>, fuel: nat) -> bool
    decreases fuel, 1nat, 0nat,
{
    match turn_index(tree, name, tree.len()) {
        Some(i) => all_grow(tree, mode, tree[i].1, tree[i].1.len(), fuel),
        None => true,
    }
}

/// The first `n` of `kids` grow no deeper than `fuel` branches.
pub open spec fn all_grow(
    tree: Seq<Turn>,
    mode: PathMode,
    kids: Seq<Seq<char>>,
    n: nat,
    fuel: nat,
) -> bool
    decreases fuel, 0nat, n,
{
    n == 0 || (all_grow(tree, mode, kids, (n - 1) as nat, fuel) && (kids[n - 1] == fruit()
        || turn_index(tree, kids[n - 1], tree.len()) is None || (fuel > 0 && (mode
        == PathMode::FirstLetter ==> kids[n - 1].len() > 0) && grows(
        tree,
        mode,
        kids[n - 1],
        (fuel - 1) as nat,
    ))))
}

/// The fruits on a branch do not depend on how deep the tree may be, if it
/// may be as deep as it is.
pub proof fn lemma_fruits_enough(
    tree: Seq<Turn>,
    mode: PathMode,
    name: Seq<char>,
    path: Seq<char>,
    depth: nat,
    fuel: nat,
    more: nat,
)
    requires
        grows(tree, mode, name, fuel),
        fuel <= more,
    ensures
        fruits_on(tree, mode, name, path, depth, more) == fruits_on(
            tree,
            mode,
            name,
            path,
            depth,
            fuel,
        ),
        grows(tree, mode, name, more),
    decreases fuel, 1nat, 0nat,
{
    match turn_index(tree, name, tree.len()) {
        Some(i) => {
            lemma_fruits_among_enough(
                tree,
                mode,
                tree[i].1,
                tree[i].1.len(),
                path,
                depth,
                fuel,
                more,
            );
        },
        None => {},
    }
}

/// The fruits on what grows on a branch do not depend on how deep the tree
/// may be, if it may be as deep as it is.
pub proof fn lemma_fruits_among_enough(
    tree: Seq<Turn>,
    mode: PathMode,
    kids: Seq<Seq<char>>,
    n: nat,
    path: Seq<char>,
    depth: nat,
    fuel: nat,
    more: nat,
)
    requires
        all_grow(tree, mode, kids, n, fuel),
        fuel <= more,
    ensures
        fruits_among(tree, mode, kids, n, path, depth, more) == fruits_among(
            tree,
            mode,
            kids,
            n,
            path,
            depth,
            fuel,
        ),
        all_grow(tree, mode, kids, n, more),
    decreases fuel, 0nat, n,
{
    if n > 0 {
        lemma_fruits_among_enough(tree, mode, kids, (n - 1) as nat, path, depth, fuel, more);
        let kid = kids[n - 1];
        if kid != fruit() && turn_index(tree, kid, tree.len()) is Some {
            lemma_fruits_enough(
                tree,
                mode,
                kid,
                longer(path, kid, mode),
                depth + 1,
                (fuel - 1) as nat,
                (more - 1) as nat,
            );
        }
    }
}

/// The fruits as they are kept: depths and ways.
pub open spec fn fruits_view(found: Seq<(usize, Vec<char>)>) -> Seq<Fruit> {
    Seq::new(found.len(), |i: int| (found[i].0 as nat, found[i].1@))
}

/// Recursively visits nodes, building paths and recording them in `visited`.
fn visit(
    current: usize,
    path: &Vec<char>,
    depth: usize,
    visited: &mut Vec<(usize, Vec<char>)>,
    nodes: &Vec<Rule>,
    mode: PathMode,
    Ghost(fuel): Ghost<nat>,
)
    requires
        current < nodes@.len(),
        turn_index(turns_of(nodes@), nodes@[current as int].head@, nodes@.len()) == Some(
            current as int,
        ),
        grows(turns_of(nodes@), mode, nodes@[current as int].head@, fuel),
        depth + fuel < usize::MAX,
    ensures
        fruits_view(final(visited)@) == fruits_view(old(visited)@) + fruits_on(
            turns_of(nodes@),
            mode,
            nodes@[current as int].head@,
            path@,
            depth as nat,
            fuel,
        ),
    decreases fuel,
{
    let ghost tree = turns_of(nodes@);
    let ghost before = fruits_view(visited@);
    let kids = &nodes[current].kids;
    let ghost names = rows_view(kids@);
    proof {
        assert(tree[current as int].1 == names);
    }
    let mut n: usize = 0;
    proof {
        assert(before + Seq::<Fruit>::empty() =~= before);
    }
    while n < kids.len()
        invariant
            n <= kids.len(),
            tree == turns_of(nodes@),
            names == rows_view(kids@),
            all_grow(tree, mode, names, names.len(), fuel),
            depth + fuel < usize::MAX,
            fruits_view(visited@) == before + fruits_among(
                tree,
                mode,
                names,
                n as nat,
                path@,
                depth as nat,
                fuel,
            ),
        decreases kids.len() - n,
    {
        let neighbour = &kids[n];
        let ghost so_far = fruits_among(tree, mode, names, n as nat, path@, depth as nat, fuel);
        let ghost held = fruits_view(visited@);
        proof {
            assert(names[n as int] == neighbour@);
            lemma_each_grows(tree, mode, names, names.len(), fuel, n as int);
        }
        if neighbour.len() == 1 && neighbour[0] == '@' {
            proof {
                assert(neighbour@ =~= fruit());
            }
            let mut full = copy_range(path.as_slice(), 0, path.len());
            full.push('@');
            proof {
                assert(path@.subrange(0, path@.len() as int) =~= path@);
                assert(full@ =~= path@ + fruit());
            }
            visited.push((depth, full));
            proof {
                assert(fruits_view(visited@) =~= held.push((depth as nat, path@ + fruit())));
                assert(before + so_far.push((depth as nat, path@ + fruit())) =~= (before
                    + so_far).push((depth as nat, path@ + fruit())));
            }
        } else {
            proof {
                if neighbour@ == fruit() {
                    assert(neighbour@.len() == 1 && neighbour@[0] == '@');
                }
            }
            match find_rule(nodes, neighbour.as_slice()) {
                Some(next) => {
                    proof {
                        lemma_turn_index(tree, neighbour@, tree.len());
                        assert(tree[next as int].0 == nodes@[next as int].head@);
                    }
                    let mut next_path = copy_range(path.as_slice(), 0, path.len());
                    proof {
                        assert(path@.subrange(0, path@.len() as int) =~= path@);
                    }
                    match mode {
                        PathMode::Full => {
                            let name = &nodes[next].head;
                            let mut k: usize = 0;
                            while k < name.len()
                                invariant
                                    k <= name.len(),
                                    next_path@ == path@ + name@.take(k as int),
                                decreases name.len() - k,
                            {
                                next_path.push(name[k]);
                                proof {
                                    assert(path@ + name@.take(k + 1) =~= (path@ + name@.take(
                                        k as int,
                                    )).push(name@[k as int]));
                                }
                                k += 1;
                            }
                            proof {
                                assert(name@.take(k as int) =~= name@);
                            }
                        },
                        PathMode::FirstLetter => {
                            next_path.push(nodes[next].head[0]);
                        },
                    }
                    proof {
                        assert(next_path@ == longer(path@, neighbour@, mode));
                    }
                    visit(next, &next_path, depth + 1, visited, nodes, mode, Ghost((fuel - 1) as nat));
                    proof {
                        let below = fruits_on(
                            tree,
                            mode,
                            neighbour@,
                            longer(path@, neighbour@, mode),
                            (depth + 1) as nat,
                            (fuel - 1) as nat,
                        );
                        assert(before + (so_far + below) =~= (before + so_far) + below);
                    }
                },
                None => {},
            }
        }
        n += 1;
    }
}

/// Where the first `n` kinds grow, each of them does.
pub proof fn lemma_each_grows(
    tree: Seq<Turn>,
    mode: PathMode,
    kids: Seq<Seq<char>>,
    n: nat,
    fuel: nat,
    j: int,
)
    requires
        all_grow(tree, mode, kids, n, fuel),
        0 <= j < n,
    ensures
        kids[j] == fruit() || turn_index(tree, kids[j], tree.len()) is None || (fuel > 0 && (mode
            == PathMode::FirstLetter ==> kids[j].len() > 0) && grows(
            tree,
            mode,
            kids[j],
            (fuel - 1) as nat,
        )),
        all_grow(tree, mode, kids, j as nat, fuel),
    decreases n,
{
    if j < n - 1 {
        lemma_each_grows(tree, mode, kids, (n - 1) as nat, fuel, j);
    }
}

/// The tree is no deeper than `fuel` branches below its root, which it
/// has, and its depths can be counted.
pub open spec fn tree_grows(tree: Seq<Turn>, mode: PathMode, fuel: nat) -> bool {
    &&& turn_index(tree, root(), tree.len()) is Some
    &&& grows(tree, mode, root(), fuel)
    &&& fuel < usize::MAX
}

/// How deep the tree is below its root, at most.
pub open spec fn tree_depth(tree: Seq<Turn>, mode: PathMode) -> nat {
    choose|fuel: nat| tree_grows(tree, mode, fuel)
}

/// How the way begins: with the root as the mode writes it.
pub open spec fn start_of(mode: PathMode) -> Seq<char> {
    match mode {
        PathMode::Full => root(),
        PathMode::FirstLetter => seq!['R'],
    }
}

/// The fruits of the tree, each with its depth and the way to it from the
/// root; those on what grows on a branch first come first.
pub open spec fn fruits_of(tree: Seq<Turn>, mode: PathMode) -> Seq<Fruit> {
    fruits_on(tree, mode, root(), start_of(mode), 0, tree_depth(tree, mode))
}

/// Calculates the depth of each fruit from the starting node "RR", and the
/// way to it.
fn calculate_depth(nodes: &Vec<Rule>, mode: PathMode) -> (visited: Vec<(usize, Vec<char>)>)
    requires
        exists|fuel: nat| tree_grows(turns_of(nodes@), mode, fuel),
    ensures
        fruits_view(visited@) == fruits_of(turns_of(nodes@), mode),
{
    let ghost tree = turns_of(nodes@);
    let ghost fuel = tree_depth(tree, mode);
    let mut visited: Vec<(usize, Vec<char>)> = Vec::new();
    let mut name: Vec<char> = Vec::new();
    name.push('R');
    name.push('R');
    let mut start_path: Vec<char> = Vec::new();
    start_path.push('R');
    match mode {
        PathMode::Full => {
            start_path.push('R');
        },
        PathMode::FirstLetter => {},
    }
    proof {
        assert(name@ =~= root());
        assert(start_path@ =~= start_of(mode));
        lemma_turn_index(tree, root(), tree.len());
        assert(fruits_view(visited@) =~= Seq::<Fruit>::empty());
    }
    match find_rule(nodes, name.as_slice()) {
        Some(at) => {
            proof {
                assert(tree[at as int].0 == nodes@[at as int].head@);
            }
            visit(at, &start_path, 0, &mut visited, nodes, mode, Ghost(fuel));
            proof {
                assert(Seq::<Fruit>::empty() + fruits_of(tree, mode) =~= fruits_of(tree, mode));
            }
        },
        None => {},
    }
    visited
}

/// How many of the first `n` fruits hang `depth` deep.
pub open spec fn hang_at(fruits: Seq<Fruit>, depth: nat, n: nat) -> nat
    decreases n,
{
    if n == 0 {
        0
    } else {
        hang_at(fruits, depth, (n - 1) as nat) + if fruits[n - 1].0 == depth {
            1nat
        } else {
            0nat
        }
    }
}

/// The fruit at `i` hangs at a depth of its own.
pub open spec fn alone(fruits: Seq<Fruit>, i: int) -> bool {
    0 <= i < fruits.len() && hang_at(fruits, fruits[i].0, fruits.len()) == 1
}

/// One fruit, and one only, hangs at a depth of its own.
pub open spec fn one_alone(fruits: Seq<Fruit>) -> bool {
    exists|i: int| #[trigger] alone(fruits, i) && forall|j: int| #[trigger] alone(fruits, j) ==> j == i
}

/// The fruit that hangs at a depth of its own.
pub open spec fn the_lone(fruits: Seq<Fruit>) -> int {
    choose|i: int| #[trigger] alone(fruits, i) && forall|j: int| #[trigger] alone(fruits, j) ==> j == i
}

/// There are no more fruits at a depth than fruits.
pub proof fn lemma_hang_at_bounded(fruits: Seq<Fruit>, depth: nat, n: nat)
    ensures
        hang_at(fruits, depth, n) <= n,
    decreases n,
{
    if n > 0 {
        lemma_hang_at_bounded(fruits, depth, (n - 1) as nat);
    }
}

/// From the fruits found, finds the way to the one that hangs at a depth
/// of its own.
fn get_unique_path(visited: &Vec<(usize, Vec<char>)>) -> (r: String)
    requires
        one_alone(fruits_view(visited@)),
    ensures
        r@ == fruits_view(visited@)[the_lone(fruits_view(visited@))].1,
{
    let ghost fruits = fruits_view(visited@);
    let ghost lone = the_lone(fruits);
    let mut i: usize = 0;
    while i < visited.len()
        invariant
            i <= visited.len(),
            fruits == fruits_view(visited@),
            one_alone(fruits),
            lone == the_lone(fruits),
            forall|j: int| 0 <= j < i ==> !#[trigger] alone(fruits, j),
        decreases visited.len() - i,
    {
        let depth = visited[i].0;
        let mut count: usize = 0;
        let mut k: usize = 0;
        while k < visited.len()
            invariant
                k <= visited.len(),
                fruits == fruits_view(visited@),
                i < visited.len(),
                depth == visited@[i as int].0,
                count == hang_at(fruits, depth as nat, k as nat),
            decreases visited.len() - k,
        {
            proof {
                lemma_hang_at_bounded(fruits, depth as nat, k as nat);
                assert(fruits[k as int].0 == visited@[k as int].0);
            }
            if visited[k].0 == depth {
                count += 1;
            }
            k += 1;
        }
        proof {
            assert(fruits[i as int].0 == depth);
        }
        if count == 1 {
            proof {
                assert(alone(fruits, i as int));
                assert(alone(fruits, lone));
                assert(fruits[i as int].1 == visited@[i as int].1@);
            }
            return text_of(visited[i].1.as_slice());
        }
        i += 1;
    }
    proof {
        assert(alone(fruits, lone));
        assert(false);
    }
    String::new()
}

/// The way to the one fruit that hangs at a depth of its own, written in
/// the mode `mode`, on the tree of the branches `nodes`.
fn lone_fruit(nodes: &Vec<Rule>, mode: PathMode) -> (r: String)
    requires
        exists|fuel: nat| tree_grows(turns_of(nodes@), mode, fuel),
        one_alone(fruits_of(turns_of(nodes@), mode)),
    ensures
        r@ == fruits_of(turns_of(nodes@), mode)[the_lone(fruits_of(turns_of(nodes@), mode))].1,
{
    let visited = calculate_depth(nodes, mode);
    get_unique_path(&visited)
}

/// The way to the one fruit of the tree drawn in `input` that hangs at a
/// depth of its own, with the full names of the branches.
pub fn part1(input: &str) -> (r: String)
    requires
        all_branches(lines(input@)),
        exists|fuel: nat| tree_grows(branches_of(lines(input@)), PathMode::Full, fuel),
        one_alone(fruits_of(branches_of(lines(input@)), PathMode::Full)),
    ensures
        r@ == fruits_of(branches_of(lines(input@)), PathMode::Full)[the_lone(
            fruits_of(branches_of(lines(input@)), PathMode::Full),
        )].1,
{
    let connections = parse_input(input);
    lone_fruit(&connections, PathMode::Full)
}

/// As `part1`, with the first letter of the name of each branch only.
pub fn part2(input: &str) -> (r: String)
    requires
        all_branches(lines(input@)),
        exists|fuel: nat| tree_grows(branches_of(lines(input@)), PathMode::FirstLetter, fuel),
        one_alone(fruits_of(branches_of(lines(input@)), PathMode::FirstLetter)),
    ensures
        r@ == fruits_of(branches_of(lines(input@)), PathMode::FirstLetter)[the_lone(
            fruits_of(branches_of(lines(input@)), PathMode::FirstLetter),
        )].1,
{
    let connections = parse_input(input);
    lone_fruit(&connections, PathMode::FirstLetter)
}

/// The name of the bugs that eat the tree.
pub open spec fn bug() -> Seq<char> {
    seq!['B', 'U', 'G']
}

/// The name of the ants that eat the tree.
pub open spec fn ant() -> Seq<char> {
    seq!['A', 'N', 'T']
}

/// Those of the first `n` branches of `tree` that are neither bugs nor ants.
pub open spec fn healthy(tree: Seq<Turn>, n: nat) -> Seq<Turn>
    decreases n,
{
    if n == 0 {
        Seq::empty()
    } else {
        let before = healthy(tree, (n - 1) as nat);
        if tree[n - 1].0 == bug() || tree[n - 1].0 == ant() {
            before
        } else {
            before.push(tree[n - 1])
        }
    }
}

/// The branches `all` without the bugs and the ants, in their order.
fn without_pests(all: Vec<Rule>) -> (connections: Vec<Rule>)
    ensures
        turns_of(connections@) == healthy(turns_of(all@), all@.len()),
{
    let ghost whole = all@;
    let ghost tree = turns_of(whole);
    assert(whole.len() == all.len());
    let mut bug_name: Vec<char> = Vec::new();
    bug_name.push('B');
    bug_name.push('U');
    bug_name.push('G');
    let mut ant_name: Vec<char> = Vec::new();
    ant_name.push('A');
    ant_name.push('N');
    ant_name.push('T');
    proof {
        assert(bug_name@ =~= bug());
        assert(ant_name@ =~= ant());
    }
    // branches come off the end of a list, so the list is turned round first
    let mut all = all;
    let mut turned: Vec<Rule> = Vec::new();
    while all.len() > 0
        invariant
            all@ == whole.take(all@.len() as int),
            turned@.len() + all@.len() == whole.len(),
            forall|j: int|
                0 <= j < turned@.len() ==> #[trigger] turned@[j] == whole[whole.len() - 1 - j],
        decreases all.len(),
    {
        match all.pop() {
            Some(rule) => {
                turned.push(rule);
                proof {
                    assert(all@ =~= whole.take(all@.len() as int));
                }
            },
            None => {},
        }
    }
    let mut connections: Vec<Rule> = Vec::new();
    let mut done: usize = 0;
    proof {
        assert(turns_of(connections@) =~= healthy(tree, 0));
    }
    while turned.len() > 0
        invariant
            tree == turns_of(whole),
            bug_name@ == bug(),
            ant_name@ == ant(),
            whole.len() <= usize::MAX,
            done + turned@.len() == whole.len(),
            forall|j: int|
                0 <= j < turned@.len() ==> #[trigger] turned@[j] == whole[whole.len() - 1 - j],
            turns_of(connections@) == healthy(tree, done as nat),
        decreases turned.len(),
    {
        let ghost held = turns_of(connections@);
        match turned.pop() {
            Some(rule) => {
                proof {
                    assert(rule == whole[done as int]);
                    assert(tree[done as int] == rule@);
                }
                if !same_text(rule.head.as_slice(), bug_name.as_slice()) && !same_text(
                    rule.head.as_slice(),
                    ant_name.as_slice(),
                ) {
                    connections.push(rule);
                    proof {
                        assert(turns_of(connections@) =~= held.push(tree[done as int]));
                    }
                }
                done += 1;
            },
            None => {},
        }
    }
    connections
}

/// As `part2`, on the tree without its bugs and ants.
pub fn part3(input: &str) -> (r: String)
    requires
        all_branches(lines(input@)),
        exists|fuel: nat|
            tree_grows(
                healthy(branches_of(lines(input@)), lines(input@).len()),
                PathMode::FirstLetter,
                fuel,
            ),
        one_alone(
            fruits_of(
                healthy(branches_of(lines(input@)), lines(input@).len()),
                PathMode::FirstLetter,
            ),
        ),
    ensures
        r@ == fruits_of(
            healthy(branches_of(lines(input@)), lines(input@).len()),
            PathMode::FirstLetter,
        )[the_lone(
            fruits_of(
                healthy(branches_of(lines(input@)), lines(input@).len()),
                PathMode::FirstLetter,
            ),
        )].1,
{
    let connections = without_pests(parse_input(input));
    proof {
        assert(branches_of(lines(input@)).len() == lines(input@).len());
    }
    lone_fruit(&connections, PathMode::FirstLetter)
}

} // verus!
