use prux::os::linux::{
    child_pids, describe_process, fds_to_close, lingering_tty_processes_for_interrupted_group,
    sort_summaries, DescendantWalk, ProcSummary,
};
use prux::text::parse_i32_str;

fn summary(pid: i32, group: i32) -> ProcSummary {
    ProcSummary {
        pid,
        process_group_id: group,
    }
}

#[test]
fn integers_parse_as_str_parse_does() {
    assert_eq!(parse_i32_str("42"), Some(42));
    assert_eq!(parse_i32_str("+42"), Some(42));
    assert_eq!(parse_i32_str("-42"), Some(-42));
    assert_eq!(parse_i32_str("007"), Some(7));
    assert_eq!(parse_i32_str("2147483647"), Some(i32::MAX));
    assert_eq!(parse_i32_str("-2147483648"), Some(i32::MIN));
    assert_eq!(parse_i32_str("2147483648"), None);
    assert_eq!(parse_i32_str("99999999999999999999"), None);
    assert_eq!(parse_i32_str(""), None);
    assert_eq!(parse_i32_str("+"), None);
    assert_eq!(parse_i32_str("-"), None);
    assert_eq!(parse_i32_str("12a"), None);
    assert_eq!(parse_i32_str(" 12"), None);
    assert_eq!(parse_i32_str("self"), None);
    for text in ["0", "-0", "+17", "123456", "-99", "1x", "x1", "--1"] {
        assert_eq!(parse_i32_str(text), text.parse::<i32>().ok(), "{text}");
    }
}

#[test]
fn stat_line_gives_process_group() {
    let stat = "1234 (bash) S 1000 1234 1234 34816 1234 4194304";
    assert_eq!(describe_process(1234, stat), Some(summary(1234, 1234)));
}

#[test]
fn stat_line_with_parenthesis_in_command_uses_last_close() {
    let stat = "77 (a) b) c) R 5 88 77 0";
    assert_eq!(describe_process(77, stat), Some(summary(77, 88)));
}

#[test]
fn malformed_stat_lines_give_nothing() {
    assert_eq!(describe_process(1, ""), None);
    assert_eq!(describe_process(1, "1 (x)S 1 2"), None);
    assert_eq!(describe_process(1, "1 (x) S 1"), None);
    assert_eq!(describe_process(1, "1 (x) S 1 grp"), None);
}

#[test]
fn children_file_lists_parsable_pids_in_order() {
    assert_eq!(child_pids("12 13 x 14\n"), vec![12, 13, 14]);
    assert_eq!(child_pids(""), Vec::<i32>::new());
    assert_eq!(child_pids("  \t 5  "), vec![5]);
}

#[test]
fn descendant_walk_lists_children_before_their_descendants() {
    // 1 -> [2, 3]; 2 -> [4]; 4 -> []; 3 -> [5]; 5 -> []
    let children = |pid: i32| -> Vec<i32> {
        match pid {
            1 => vec![2, 3],
            2 => vec![4],
            3 => vec![5],
            _ => vec![],
        }
    };
    let mut walk = DescendantWalk::new(1);
    let mut asked = Vec::new();
    while let Some(pid) = walk.next_request() {
        asked.push(pid);
        walk.feed(children(pid));
    }
    assert_eq!(walk.found(), &vec![2, 4, 3, 5]);
    assert_eq!(asked, vec![1, 2, 4, 3, 5]);
}

#[test]
fn descendant_walk_of_leaf_finds_nothing() {
    let mut walk = DescendantWalk::new(9);
    assert_eq!(walk.next_request(), Some(9));
    walk.feed(Vec::new());
    assert_eq!(walk.next_request(), None);
    assert!(walk.found().is_empty());
}

#[test]
fn fds_above_stderr_are_closed_in_order_once() {
    let names: Vec<String> = ["0", "1", "2", "5", "3", "5", "abc", "-4", "12", "+7"]
        .iter()
        .map(|s| s.to_string())
        .collect();
    assert_eq!(fds_to_close(&names), vec![3, 5, 7, 12]);
    assert_eq!(fds_to_close(&Vec::new()), Vec::<i32>::new());
}

#[test]
fn summaries_sort_by_pid_then_group() {
    let sorted = sort_summaries(vec![summary(5, 1), summary(2, 9), summary(5, 0), summary(2, 3)]);
    assert_eq!(sorted, vec![summary(2, 3), summary(2, 9), summary(5, 0), summary(5, 1)]);
    let mut expected = vec![summary(3, 3), summary(1, 1), summary(2, 2)];
    expected.sort();
    assert_eq!(sort_summaries(vec![summary(3, 3), summary(1, 1), summary(2, 2)]), expected);
}

#[test]
fn lingering_processes_are_the_interrupted_group_outside_the_shell_tree() {
    let attached = vec![
        summary(100, 100), // the shell itself
        summary(101, 100), // in the shell's group
        summary(200, 200), // interrupted group, descendant of the shell
        summary(201, 200), // interrupted group, not a descendant: lingering
        summary(300, 300), // another group
    ];
    let lingering = lingering_tty_processes_for_interrupted_group(100, 100, 200, &[200, 101], &attached);
    assert_eq!(lingering, vec![summary(201, 200)]);
    let none = lingering_tty_processes_for_interrupted_group(100, 100, 200, &[200, 201], &attached);
    assert!(none.is_empty());
}

#[test]
fn walk_of_deeper_tree_is_preorder() {
    let children = |pid: i32| -> Vec<i32> {
        match pid {
            10 => vec![11, 12, 13],
            11 => vec![14, 15],
            15 => vec![16],
            13 => vec![17],
            _ => vec![],
        }
    };
    let mut walk = DescendantWalk::new(10);
    while let Some(pid) = walk.next_request() {
        walk.feed(children(pid));
    }
    assert_eq!(walk.found(), &vec![11, 14, 15, 16, 12, 13, 17]);
}

#[test]
fn lingering_from_sorted_listing_is_ascending() {
    let attached = sort_summaries(vec![
        summary(305, 200),
        summary(100, 100),
        summary(201, 200),
        summary(250, 200),
    ]);
    let lingering = lingering_tty_processes_for_interrupted_group(100, 100, 200, &[250], &attached);
    assert_eq!(lingering, vec![summary(201, 200), summary(305, 200)]);
}
