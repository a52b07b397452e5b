use log_squeeze::lingua::run_builtin_token_pruner;

// The pruner drops stop words only for a target retention rate below 0.8.
fn prunes(rate: f32) -> bool {
    rate < 0.8
}

#[test]
fn test_builtin_pruner_preserves_indentation() {
    let code = "    let config = load_from_disk(&path);";
    let pruned = run_builtin_token_pruner(code, prunes(0.5));
    assert!(pruned.starts_with("    let config"));
}

#[test]
fn drops_stop_words_at_even_positions() {
    assert_eq!(
        run_builtin_token_pruner("The cat is on the mat today", prunes(0.5)),
        "cat on mat today\n"
    );
    assert_eq!(
        run_builtin_token_pruner("the, dog is here now", prunes(0.5)),
        "dog here now\n"
    );
    assert_eq!(run_builtin_token_pruner("и это в как", prunes(0.3)), "это как\n");
}

#[test]
fn high_rate_keeps_every_word() {
    assert_eq!(
        run_builtin_token_pruner("The cat is on the mat", prunes(0.9)),
        "The cat is on the mat\n"
    );
}

#[test]
fn short_and_blank_lines() {
    assert_eq!(run_builtin_token_pruner("  a b c  ", prunes(0.5)), "  a b c\n");
    assert_eq!(
        run_builtin_token_pruner("x y z w\n\n  the a of in\n", prunes(0.5)),
        "x y z w\n\n  a in\n"
    );
    assert_eq!(run_builtin_token_pruner("", prunes(0.5)), "");
    assert_eq!(run_builtin_token_pruner("\t  \n", prunes(0.5)), "\n");
}
