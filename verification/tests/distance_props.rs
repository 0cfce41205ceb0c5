use dictcore::edit_distance;

#[test]
fn distance_of_equal_strings_is_zero() {
    assert_eq!(edit_distance("", ""), 0);
    assert_eq!(edit_distance("a", "a"), 0);
    assert_eq!(edit_distance("kitten", "kitten"), 0);
    assert_eq!(edit_distance("Unchanged words", "Unchanged words"), 0);
}

#[test]
fn distance_is_symmetric_on_samples() {
    let pairs = [
        ("kitten", "sitting"),
        ("flaw", "lawn"),
        ("", "abc"),
        ("dog", "cat"),
        ("abcdef", "azced"),
    ];
    for (a, b) in pairs {
        assert_eq!(edit_distance(a, b), edit_distance(b, a));
    }
}

#[test]
fn distance_to_empty_is_length() {
    assert_eq!(edit_distance("", "words"), 5);
    assert_eq!(edit_distance("words", ""), 5);
    assert_eq!(edit_distance("", "x"), 1);
    assert_eq!(edit_distance("x", ""), 1);
    assert_eq!(edit_distance("", ""), 0);
}

#[test]
fn triangle_inequality_on_samples() {
    let words = ["kitten", "sitting", "", "cat", "cats", "flaw", "lawn"];
    for a in words {
        for b in words {
            for c in words {
                let ac = edit_distance(a, c);
                let ab = edit_distance(a, b);
                let bc = edit_distance(b, c);
                assert!(ac <= ab + bc);
            }
        }
    }
}

#[test]
fn kitten_sitting_is_three() {
    assert_eq!(edit_distance("kitten", "sitting"), 3);
}

#[test]
fn flaw_lawn_is_two() {
    assert_eq!(edit_distance("flaw", "lawn"), 2);
}

#[test]
fn single_edit_distances() {
    // one substitution
    assert_eq!(edit_distance("bat", "cat"), 1);
    // one insertion
    assert_eq!(edit_distance("cat", "cats"), 1);
    // one deletion
    assert_eq!(edit_distance("cats", "cat"), 1);
    // unrelated words
    assert_eq!(edit_distance("dog", "cat"), 3);
}
