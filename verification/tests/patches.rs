//! Patches between texts.
use kairos::delta::{apply_patch, create_patch, DeltaError};

#[test]
fn a_patch_is_a_unified_diff() {
    assert_eq!(
        create_patch("a\nb\n", "a\nc\n"),
        b"--- original\n+++ modified\n@@ -1,2 +1,2 @@\n a\n-b\n+c\n".to_vec()
    );
}

#[test]
fn a_patch_leads_from_one_text_to_the_other() {
    let texts = [
        "", "\n", "\n\n\n", "a", "a\n", "a\nb", "a\nb\n", "\na\n\nb\n\n", "--- a\n+++ b\n",
        "@@ -1 +1 @@\n", "\\ No newline at end of file\n", " \n-\n+\n", "\r\n\r\n", "caf\u{e9}\n\u{1f600}",
    ];
    for previous in texts {
        for current in texts {
            let patch = create_patch(previous, current);
            assert_eq!(apply_patch(previous, &patch), Ok(current.to_string()));
        }
    }
}

fn next(state: &mut u64) -> u64 {
    *state = state.wrapping_mul(6_364_136_223_846_793_005).wrapping_add(1_442_695_040_888_963_407);
    *state >> 33
}

fn random_text(state: &mut u64) -> String {
    let alphabet = ["a\n", "b\n", "\n", "c\n", "-x\n", "+y\n", " z\n", "@@\n"];
    let mut text = String::new();
    for _ in 0..next(state) % 24 {
        text.push_str(alphabet[(next(state) % 8) as usize]);
    }
    if next(state) % 3 == 0 {
        text.push_str("end");
    }
    text
}

#[test]
fn patches_lead_from_one_text_to_the_other_at_random() {
    let mut state: u64 = 42;
    for _ in 0..20_000 {
        let previous = random_text(&mut state);
        let current = random_text(&mut state);
        let patch = create_patch(&previous, &current);
        assert_eq!(apply_patch(&previous, &patch), Ok(current));
    }
}

#[test]
fn each_bad_patch_says_what_is_wrong() {
    let patch = create_patch("a\n", "b\n");
    assert_eq!(apply_patch("other\n", &patch), Err(DeltaError::DoesNotApply));
    assert_eq!(apply_patch("a\n", b"@@ nonsense\n"), Err(DeltaError::NotAPatch));
    assert_eq!(apply_patch("a\n", &[0xff]), Err(DeltaError::NotUtf8));
    let beyond = format!("@@ -{} +1 @@\n-a\n+b\n@@ -9 +9 @@\n-c\n+d\n", usize::MAX);
    assert_eq!(apply_patch("a\n", beyond.as_bytes()), Err(DeltaError::NotAPatch));
    let too_long = format!("@@ -1,{0} +1,{0} @@\n-a\n+b\n", usize::MAX - 1);
    assert_eq!(apply_patch("a\n", too_long.as_bytes()), Err(DeltaError::NotAPatch));
    assert_eq!(apply_patch("a\n", b"@@ -1 +1 @@\n-a\n+b\n"), Ok("b\n".to_string()));
    assert_eq!(DeltaError::NotUtf8.message(), "patch payload is not valid UTF-8");
    assert_eq!(DeltaError::NotAPatch.message(), "failed to parse stored patch");
    assert_eq!(DeltaError::DoesNotApply.message(), "failed to apply stored patch");
}

#[test]
fn large_numbers_that_are_not_added_up_do_no_harm() {
    let last = format!("@@ -{0} +{0} @@\n-a\n+b\n", usize::MAX);
    assert_eq!(apply_patch("a\n", last.as_bytes()), Ok("b\n".to_string()));
    let behind = "@@ -1 +1 @@ 99999999999999999999999999\n-a\n+b\n@@ -2 +2 @@\n-c\n+d\n";
    assert_eq!(apply_patch("a\nc\n", behind.as_bytes()), Ok("b\nd\n".to_string()));
    let at_the_end = format!("@@ -1 +1 @@\n-a\n+b\n@@ -{0} +{0} @@\n-c\n+d\n", usize::MAX);
    assert_eq!(apply_patch("a\nc\n", at_the_end.as_bytes()), Ok("b\nd\n".to_string()));
    let too_large = "@@ -99999999999999999999999999 +1 @@\n-a\n+b\n";
    assert_eq!(apply_patch("a\n", too_large.as_bytes()), Err(DeltaError::NotAPatch));
}
