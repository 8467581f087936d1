use rust_algorithm_club::{
    hamming_distance, hamming_distance_str, levenshtein_distance, levenshtein_distance_naive,
};

fn test_equality(f: impl Fn(&str, &str) -> usize) {
    let cases = ["", "r", "ru", "rus", "rust"];
    for &s in &cases {
        assert_eq!(f(s, s), 0);
    }
}

fn test_insertion(f: impl Fn(&str, &str) -> usize) {
    let cases = [
        (1, "rustalgo", "*rustalgo"),
        (2, "rustalgo", "**rustalgo"),
        (3, "rustalgo", "***rustalgo"),
        (1, "rustalgo", "rust*algo"),
        (2, "rustalgo", "rust**algo"),
        (3, "rustalgo", "rust***algo"),
        (1, "rustalgo", "rustalgo*"),
        (2, "rustalgo", "rustalgo**"),
        (3, "rustalgo", "rustalgo***"),
        (2, "rustalgo", "*r*ustalgo"),
        (3, "rustalgo", "*r*u*stalgo"),
        (4, "rustalgo", "*ru**stalgo*"),
    ];
    for &(dist, s1, s2) in &cases {
        assert_eq!(f(s1, s2), dist);
        assert_eq!(f(s2, s1), dist);
    }
}

fn test_deletion(f: impl Fn(&str, &str) -> usize) {
    let cases = [
        (1, "rustalgo", "ustalgo"),
        (2, "rustalgo", "stalgo"),
        (3, "rustalgo", "talgo"),
        (1, "rustalgo", "rustalg"),
        (2, "rustalgo", "rustal"),
        (3, "rustalgo", "rusta"),
        (2, "rustalgo", "utalgo"),
        (3, "rustalgo", "rstag"),
        (8, "rustalgo", ""),
    ];
    for &(dist, s1, s2) in &cases {
        assert_eq!(f(s1, s2), dist);
        assert_eq!(f(s2, s1), dist);
    }
}

fn test_substitution(f: impl Fn(&str, &str) -> usize) {
    let cases = [
        (1, "rustalgo", "*ustalgo"),
        (2, "rustalgo", "**stalgo"),
        (3, "rustalgo", "***talgo"),
        (1, "rustalgo", "rusta*go"),
        (2, "rustalgo", "rusta**o"),
        (3, "rustalgo", "rusta***"),
        (3, "rustalgo", "*u*t*lgo"),
        (4, "rustalgo", "r**t*lg*"),
        (8, "rustalgo", "********"),
    ];
    for &(dist, s1, s2) in &cases {
        assert_eq!(f(s1, s2), dist);
        assert_eq!(f(s2, s1), dist);
    }
}

fn test_mixed(f: impl Fn(&str, &str) -> usize) {
    let sample = [
        (8, "", "rustalgo"),
        (4, "rustalgo", "**ruslgo"),
        (3, "kitten", "sitting"),
        (3, "saturday", "sunday"),
        (3, "台灣國語", "閩南語"),
        (7, "⭕️❌肺炎染", "嚴重⭕️傳染性💩肺炎"),
    ];
    for &(dist, s1, s2) in &sample {
        assert_eq!(f(s1, s2), dist);
        assert_eq!(f(s2, s1), dist);
    }
}

#[test]
fn equality() {
    test_equality(levenshtein_distance);
}

#[test]
fn insertion() {
    test_insertion(levenshtein_distance);
}

#[test]
fn deletion() {
    test_deletion(levenshtein_distance);
}

#[test]
fn substitution() {
    test_substitution(levenshtein_distance);
}

#[test]
fn mixed() {
    test_mixed(levenshtein_distance);
}

#[test]
fn equality_naive() {
    test_equality(levenshtein_distance_naive);
}

#[test]
fn insertion_naive() {
    test_insertion(levenshtein_distance_naive);
}

#[test]
fn deletion_naive() {
    test_deletion(levenshtein_distance_naive);
}

#[test]
fn substitution_naive() {
    test_substitution(levenshtein_distance_naive);
}

#[test]
fn mixed_naive() {
    test_mixed(levenshtein_distance_naive);
}

#[test]
fn bit() {
    let cases = [
        (0, 0b0000_0000, 0b0000_0000),
        (0, 0b1111_1111, 0b1111_1111),
        (1, 0b0000_0001, 0b0000_0000),
        (2, 0b0000_0000, 0b0001_1000),
        (4, 0b1100_0011, 0b0110_0110),
        (8, 0b0101_0101, 0b1010_1010),
    ];
    for &(dist, c1, c2) in &cases {
        assert_eq!(hamming_distance(c1, c2), dist);
    }
}

#[test]
fn str() {
    let cases = [
        (0, "", ""),
        (0, "rust", "rust"),
        (1, "cat", "bat"),
        (3, "abc", "xyz"),
    ];
    for &(dist, c1, c2) in &cases {
        assert_eq!(hamming_distance_str(c1, c2), dist);
    }
}
