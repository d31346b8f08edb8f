use jump_diffusion::jumps::find_jump;
use jump_diffusion::jumps::jump_detected;

// Log returns are i64 values at the 1e-9 scale: 0.1 is 100_000_000.

#[test]
fn test_find_jump() {
    let y: Vec<i64> = vec![100_000_000, -100_000_000, 200_000_000, -300_000_000];
    let (pos, size) = find_jump(&y);
    assert_eq!(pos, 3);
    assert_eq!(size, -300_000_000);
}

#[test]
fn find_jump_single_element() {
    let y: Vec<i64> = vec![42];
    assert_eq!(find_jump(&y), (0, 42));
}

#[test]
fn find_jump_tie_later_index_wins() {
    // two equal-magnitude extremes: the later index must win
    let y: Vec<i64> = vec![300_000_000, -100_000_000, -300_000_000, 200_000_000];
    let (pos, size) = find_jump(&y);
    assert_eq!(pos, 2);
    assert_eq!(size, -300_000_000);
}

#[test]
fn find_jump_tie_among_three() {
    let y: Vec<i64> = vec![-500, 500, 500];
    assert_eq!(find_jump(&y), (2, 500));
}

#[test]
fn detects_single_outlier_among_noise() {
    let mut y: Vec<i64> = Vec::new();
    for i in 0..20 {
        y.push(if i % 2 == 0 { 100_000 } else { -100_000 });
    }
    y.push(50_000_000);
    assert!(jump_detected(&y));
}

#[test]
fn no_detection_for_uniform_noise() {
    let mut y: Vec<i64> = Vec::new();
    for i in 0..21 {
        y.push(if i % 2 == 0 { 100_000 } else { -100_000 });
    }
    assert!(!jump_detected(&y));
}

#[test]
fn no_detection_for_all_zero_series() {
    let y: Vec<i64> = vec![0; 10];
    assert!(!jump_detected(&y));
}

#[test]
fn no_detection_for_short_series() {
    let y: Vec<i64> = vec![50_000_000, -50_000_000];
    assert!(!jump_detected(&y));
}
