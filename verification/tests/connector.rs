use dirtree::connector::create_indentation;

#[test]
fn root_has_no_prefix() {
    assert_eq!(create_indentation(0, &[]), "");
}

#[test]
fn root_has_no_prefix_whatever_the_stack() {
    assert_eq!(create_indentation(0, &[true, false]), "");
}

#[test]
fn only_child_is_drawn_as_last() {
    assert_eq!(create_indentation(1, &[true]), "└── ");
}

#[test]
fn child_with_later_siblings_is_drawn_as_branch() {
    assert_eq!(create_indentation(1, &[false]), "├── ");
}

#[test]
fn open_ancestor_keeps_its_guide() {
    assert_eq!(create_indentation(2, &[false, true]), "│   └── ");
    assert_eq!(create_indentation(2, &[false, false]), "│   ├── ");
}

#[test]
fn closed_ancestor_leaves_a_blank_column() {
    assert_eq!(create_indentation(2, &[true, true]), "    └── ");
    assert_eq!(create_indentation(2, &[true, false]), "    ├── ");
}

#[test]
fn three_levels_mix_guides_and_blanks() {
    assert_eq!(create_indentation(3, &[true, false, false]), "    │   ├── ");
    assert_eq!(create_indentation(3, &[false, true, true]), "│       └── ");
    assert_eq!(create_indentation(4, &[false, false, false, true]), "│   │   │   └── ");
}

#[test]
fn prefix_is_four_columns_per_level() {
    let stack = [false, true, false, true, true];
    for depth in 1..=stack.len() {
        let prefix = create_indentation(depth, &stack[..depth]);
        assert_eq!(prefix.chars().count(), 4 * depth);
    }
}

#[test]
fn short_stack_draws_what_it_has() {
    assert_eq!(create_indentation(1, &[]), "├── ");
    assert_eq!(create_indentation(3, &[true]), "    └── ");
}

#[test]
fn long_stack_draws_guides_up_to_depth_and_branch_by_its_top() {
    assert_eq!(create_indentation(2, &[false, false, true]), "│   └── ");
    assert_eq!(create_indentation(1, &[false, true]), "└── ");
}
