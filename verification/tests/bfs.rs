use klotski::bfs::{find_path, PathFinder};
use klotski::search_tree::{SearchTree, TracePath};
use std::cell::RefCell;
use std::collections::HashSet;

#[test]
fn test_find_path_linear() {
    // Linear path: 0 -> 1 -> 2 -> 3 -> 4
    let start = 0;
    let goal = 4;
    let is_goal = |&x: &i32| x == goal;
    let neighbors = |&x: &i32| if x < goal { vec![x + 1] } else { vec![] };
    let mut visited = HashSet::new();
    let try_visit = |x: &i32, _depth: usize| visited.insert(*x);

    let path = find_path(&start, is_goal, neighbors, try_visit);
    assert_eq!(path, Some(vec![0, 1, 2, 3, 4]));
}

#[test]
fn test_find_path_branch() {
    // Branching path: 0 -> 1 -> 3 or 0 -> 2 -> 4
    let start = 0;
    let goal = 4;
    let is_goal = |&x: &i32| x == goal;
    let neighbors = |&x: &i32| match x {
        0 => vec![1, 2],
        1 => vec![3],
        2 => vec![4],
        _ => vec![],
    };
    let mut visited = HashSet::new();
    let try_visit = |x: &i32, _depth: usize| visited.insert(*x);

    let path = find_path(&start, is_goal, neighbors, try_visit);
    assert_eq!(path, Some(vec![0, 2, 4]));
}

#[test]
fn test_find_path_shortest() {
    // Shortest path: 0 -> 1 -> 4 (not 0 -> 2 -> 3 -> 4)
    let start = 0;
    let goal = 4;
    let is_goal = |&x: &i32| x == goal;
    let neighbors = |&x: &i32| match x {
        0 => vec![1, 2],
        1 => vec![4],
        _ => vec![x + 1],
    };
    let mut visited = HashSet::new();
    let try_visit = |x: &i32, _depth: usize| visited.insert(*x);

    let path = find_path(&start, is_goal, neighbors, try_visit);
    assert_eq!(path, Some(vec![0, 1, 4]));
}

#[test]
fn test_find_path_revisit() {
    // Path with possible revisits: 0 -> 1 -> 2 -> 3 -> 4 -> 5
    let start = 0;
    let goal = 5;
    let is_goal = |&x: &i32| x == goal;
    let neighbors = |&x: &i32| vec![x + 1, x - 1];
    let mut visited = HashSet::new();
    let try_visit = |x: &i32, _depth: usize| visited.insert(*x);

    let path = find_path(&start, is_goal, neighbors, try_visit);
    assert_eq!(path, Some(vec![0, 1, 2, 3, 4, 5]));
}

#[test]
fn test_find_path_not_found() {
    // No path to goal
    let start = 0;
    let goal = 4;
    let is_goal = |&x: &i32| x == goal;
    let neighbors = |&x: &i32| match x {
        0 => vec![1],
        1 => vec![2],
        _ => vec![],
    };
    let mut visited = HashSet::new();
    let try_visit = |x: &i32, _depth: usize| visited.insert(*x);

    let path = find_path(&start, is_goal, neighbors, try_visit);
    assert_eq!(path, None);
}

#[test]
fn test_find_path_alread_goaled() {
    // Start is already goal
    let start = 0;
    let goal = 0;
    let is_goal = |&x: &i32| x == goal;
    let neighbors = |&x: &i32| vec![x + 1];
    let mut visited = HashSet::new();
    let try_visit = |x: &i32, _depth: usize| visited.insert(*x);

    let path = find_path(&start, is_goal, neighbors, try_visit);
    assert_eq!(path, Some(vec![0]));
}

#[test]
fn find_path_takes_the_branch_with_fewer_steps() {
    let start = 0;
    let is_goal = |&x: &i32| x == 4;
    let neighbors = |&x: &i32| match x {
        0 => vec![1, 2],
        1 => vec![4],
        2 => vec![3],
        3 => vec![4],
        _ => vec![],
    };
    let mut visited = HashSet::new();
    let try_visit = |x: &i32, _depth: usize| visited.insert(*x);
    assert_eq!(
        find_path(&start, is_goal, neighbors, try_visit),
        Some(vec![0, 1, 4])
    );
}

#[test]
fn find_path_returns_none_when_the_start_is_turned_down() {
    let start = 0;
    let is_goal = |&x: &i32| x == 0;
    let neighbors = |&x: &i32| vec![x + 1];
    let try_visit = |_x: &i32, _depth: usize| false;
    assert_eq!(find_path(&start, is_goal, neighbors, try_visit), None);
}

#[test]
fn find_path_asks_about_each_state_with_its_depth() {
    let start = 10;
    let is_goal = |&x: &i32| x == 13;
    let neighbors = |&x: &i32| vec![x + 1, x + 2];
    let mut asked: Vec<(i32, usize)> = Vec::new();
    let mut visited = HashSet::new();
    let try_visit = |x: &i32, depth: usize| {
        asked.push((*x, depth));
        visited.insert(*x)
    };
    let path = find_path(&start, is_goal, neighbors, try_visit);
    assert_eq!(path, Some(vec![10, 11, 13]));
    assert_eq!(asked, vec![(10, 0), (11, 1), (12, 1), (12, 2), (13, 2)]);
}

#[test]
fn find_path_links_every_state_to_the_next_by_a_step() {
    let start = 1u32;
    let is_goal = |&x: &u32| x == 37;
    let neighbors = |&x: &u32| if x < 100 { vec![x * 2, x + 3] } else { vec![] };
    let mut visited = HashSet::new();
    let try_visit = |x: &u32, _depth: usize| visited.insert(*x);
    let path = find_path(&start, is_goal, neighbors, try_visit).expect("37 can be reached");
    assert_eq!(path, vec![1, 4, 7, 14, 17, 34, 37]);
    assert_eq!(path[0], start);
    assert_eq!(path[path.len() - 1], 37);
    for i in 0..path.len() - 1 {
        assert!(neighbors(&path[i]).contains(&path[i + 1]));
    }
}

#[test]
fn path_finder_finds_the_same_path_as_find_path() {
    let is_goal = |&x: &i32| x == 4;
    let neighbors = |&x: &i32| match x {
        0 => vec![1, 2],
        1 => vec![4],
        _ => vec![x + 1],
    };
    let mut visited = HashSet::new();
    let try_visit = |x: &i32, _depth: usize| visited.insert(*x);
    let mut finder = PathFinder::new(is_goal, neighbors, try_visit);
    assert_eq!(finder.find(&0), Some(vec![0, 1, 4]));
}

#[test]
fn path_finder_keeps_its_memory_between_searches() {
    let is_goal = |&x: &i32| x == 2;
    let neighbors = |&x: &i32| vec![x + 1];
    let mut visited = HashSet::new();
    let try_visit = |x: &i32, _depth: usize| visited.insert(*x);
    let mut finder = PathFinder::new(is_goal, neighbors, try_visit);
    assert_eq!(finder.find(&0), Some(vec![0, 1, 2]));
    assert_eq!(finder.find(&0), None);
}

#[test]
fn path_finder_takes_a_set_of_states_as_its_memory() {
    let is_goal = |&x: &i32| x == 4;
    let neighbors = |&x: &i32| match x {
        0 => vec![1, 2],
        1 => vec![4],
        2 => vec![3],
        3 => vec![4],
        _ => vec![],
    };
    let mut finder = PathFinder::new(is_goal, neighbors, HashSet::new());
    assert_eq!(finder.find(&0), Some(vec![0, 1, 4]));
    let mut seen: Vec<i32> = finder.try_visit.iter().copied().collect();
    seen.sort();
    assert_eq!(seen, vec![0, 1, 2, 4]);
}

#[test]
fn search_tree_traces_the_way_to_the_last_node() {
    let tree = SearchTree::with_root("a");
    assert_eq!(tree.len(), 1);
    let tree = tree.add_child(0, "b");
    let tree = tree.add_child(0, "c");
    let tree = tree.add_child(1, "d");
    let tree = tree.add_child(2, "e");
    assert_eq!(tree.len(), 5);
    assert_eq!(*tree.state(3), "d");
    assert_eq!(tree.depth(0), 0);
    assert_eq!(tree.depth(2), 1);
    assert_eq!(tree.depth(4), 2);
    assert_eq!(tree.trace_path(), vec!["a", "c", "e"]);
}

#[test]
fn search_tree_of_the_root_alone_traces_the_root() {
    assert_eq!(SearchTree::with_root(7).trace_path(), vec![7]);
}

#[test]
fn find_path_expands_the_states_of_a_level_in_the_order_they_were_taken_in() {
    let is_goal = |&x: &i32| x == 5 || x == 6;
    let neighbors = |&x: &i32| match x {
        0 => vec![1, 2],
        1 => vec![3],
        2 => vec![4],
        3 => vec![5],
        4 => vec![6],
        _ => vec![],
    };
    let mut visited = HashSet::new();
    let try_visit = |x: &i32, _depth: usize| visited.insert(*x);
    assert_eq!(
        find_path(&0, is_goal, neighbors, try_visit),
        Some(vec![0, 1, 3, 5])
    );
}

#[test]
fn find_path_ends_with_the_first_successor_that_is_a_goal() {
    let is_goal = |&x: &i32| x == 1 || x == 2;
    let neighbors = |&x: &i32| if x == 0 { vec![1, 2] } else { vec![] };
    let mut asked: Vec<(i32, usize)> = Vec::new();
    let try_visit = |x: &i32, depth: usize| {
        asked.push((*x, depth));
        true
    };
    assert_eq!(find_path(&0, is_goal, neighbors, try_visit), Some(vec![0, 1]));
    assert_eq!(asked, vec![(0, 0), (1, 1)]);
}

#[test]
fn find_path_asks_once_and_no_more_when_the_start_is_turned_down() {
    let calls: RefCell<Vec<String>> = RefCell::new(Vec::new());
    let is_goal = |x: &i32| {
        calls.borrow_mut().push(format!("goal {}", x));
        true
    };
    let neighbors = |x: &i32| {
        calls.borrow_mut().push(format!("next {}", x));
        vec![*x + 1]
    };
    let try_visit = |x: &i32, depth: usize| {
        calls.borrow_mut().push(format!("visit {} {}", x, depth));
        false
    };
    assert_eq!(find_path(&7, is_goal, neighbors, try_visit), None);
    assert_eq!(*calls.borrow(), vec![String::from("visit 7 0")]);
}

#[test]
fn find_path_asks_the_memory_and_the_goal_test_once_when_the_start_is_a_goal() {
    let calls: RefCell<Vec<String>> = RefCell::new(Vec::new());
    let is_goal = |x: &i32| {
        calls.borrow_mut().push(format!("goal {}", x));
        true
    };
    let neighbors = |x: &i32| {
        calls.borrow_mut().push(format!("next {}", x));
        vec![*x + 1]
    };
    let try_visit = |x: &i32, depth: usize| {
        calls.borrow_mut().push(format!("visit {} {}", x, depth));
        true
    };
    assert_eq!(find_path(&7, is_goal, neighbors, try_visit), Some(vec![7]));
    assert_eq!(
        *calls.borrow(),
        vec![String::from("visit 7 0"), String::from("goal 7")]
    );
}

#[derive(Debug, PartialEq)]
struct Counted {
    value: u32,
    clones: u32,
}

impl Clone for Counted {
    fn clone(&self) -> Self {
        Counted { value: self.value, clones: self.clones + 1 }
    }
}

#[test]
fn find_path_asks_about_the_start_itself_and_keeps_a_clone_of_it() {
    let asked: RefCell<Vec<(u32, u32)>> = RefCell::new(Vec::new());
    let is_goal = |x: &Counted| {
        asked.borrow_mut().push((x.value, x.clones));
        x.value == 1
    };
    let neighbors = |x: &Counted| vec![Counted { value: x.value + 1, clones: 0 }];
    let try_visit = |x: &Counted, _depth: usize| {
        asked.borrow_mut().push((x.value, x.clones));
        true
    };
    let start = Counted { value: 0, clones: 0 };
    let path = find_path(&start, is_goal, neighbors, try_visit).expect("1 follows on 0");
    assert_eq!(*asked.borrow(), vec![(0, 0), (0, 0), (1, 0), (1, 0)]);
    assert_eq!(path.len(), 2);
    assert_eq!(path[0].value, 0);
    assert!(path[0].clones >= 1);
    assert_eq!(path[1].value, 1);
    assert_eq!(start.clones, 0);
}

fn numbered_calls(
    use_finder: bool,
) -> (Option<Vec<i32>>, Vec<String>) {
    let calls: RefCell<Vec<String>> = RefCell::new(Vec::new());
    let is_goal = |x: &i32| {
        calls.borrow_mut().push(format!("goal {}", x));
        *x == 9
    };
    let neighbors = |x: &i32| {
        calls.borrow_mut().push(format!("next {}", x));
        if *x < 9 {
            vec![*x + 2, *x + 3, *x - 1]
        } else {
            vec![]
        }
    };
    let mut seen = HashSet::new();
    let try_visit = |x: &i32, depth: usize| {
        calls.borrow_mut().push(format!("visit {} {}", x, depth));
        seen.insert(*x)
    };
    let result = if use_finder {
        PathFinder::new(is_goal, neighbors, try_visit).find(&0)
    } else {
        find_path(&0, is_goal, neighbors, try_visit)
    };
    let made = calls.borrow().clone();
    (result, made)
}

#[test]
fn path_finder_and_find_path_make_the_same_calls_and_find_the_same_path() {
    let (by_finder, calls_of_finder) = numbered_calls(true);
    let (by_function, calls_of_function) = numbered_calls(false);
    assert_eq!(by_finder, Some(vec![0, 3, 6, 9]));
    assert_eq!(by_finder, by_function);
    assert_eq!(calls_of_finder, calls_of_function);
    assert_eq!(calls_of_finder[0], "visit 0 0");
    assert_eq!(calls_of_finder[1], "goal 0");
    assert_eq!(calls_of_finder[2], "next 0");
    assert_eq!(calls_of_finder[3], "visit 2 1");
}
