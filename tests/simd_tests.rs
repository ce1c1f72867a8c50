use tinyframe::cpu_features::{get_best_simd_type, get_simd_capabilities, has_avx2, has_neon, has_sse2, has_sse4_1, SimdCapabilities, SimdType};
use tinyframe::simd::{Arm64SimdOps, ScalarOps, SimdBenchmarks, SimdOps, X86_64SimdOps};
use tinyframe::text::{ScalarStringOps, SimdStringOps};

fn generate_test_data_i64(size: usize) -> Vec<i64> {
    (0..size).map(|i| (i as i64) * 3 - 1000).collect()
}

fn generate_test_strings() -> Vec<String> {
    vec![
        "hello world".to_string(),
        "HELLO WORLD".to_string(),
        "Hello World".to_string(),
        "hElLo WoRlD".to_string(),
        "".to_string(),
        "a".to_string(),
        "ab".to_string(),
        "abc".to_string(),
        "abcdefghijklmnopqrstuvwxyz".to_string(),
        "ABCDEFGHIJKLMNOPQRSTUVWXYZ".to_string(),
    ]
}

#[test]
fn test_simd_sum_i64() {
    let test_cases = vec![
        vec![],
        vec![1],
        vec![1, 2, 3, 4],
        vec![1, 2, 3, 4, 5],
        generate_test_data_i64(100),
        generate_test_data_i64(1000),
    ];
    for data in test_cases {
        let expected: i64 = data.iter().sum();
        let actual = SimdOps::sum_i64(&data);
        assert_eq!(actual, expected, "sum_i64 failed for data: {:?}", data);
    }
}

#[test]
fn test_simd_min_max_i64() {
    let test_cases = vec![
        vec![],
        vec![1],
        vec![1, 2, 3, 4],
        vec![1, 2, 3, 4, 5],
        vec![-1, -2, -3, -4],
        vec![0, 0, 0, 0],
        generate_test_data_i64(100),
        generate_test_data_i64(1000),
    ];
    for data in test_cases {
        if data.is_empty() {
            continue;
        }
        let expected_min = *data.iter().min().unwrap();
        let expected_max = *data.iter().max().unwrap();
        let (actual_min, actual_max) = SimdOps::min_max_i64(&data);
        assert_eq!(actual_min, expected_min, "min_i64 failed for data: {:?}", data);
        assert_eq!(actual_max, expected_max, "max_i64 failed for data: {:?}", data);
    }
}

#[test]
fn test_simd_string_uppercase() {
    for input in generate_test_strings() {
        let expected = input.to_uppercase();
        let actual = SimdStringOps::to_uppercase_simd(&input);
        assert_eq!(actual, expected, "to_uppercase_simd failed for input: '{}'", input);
    }
}

#[test]
fn test_simd_string_lowercase() {
    for input in generate_test_strings() {
        let expected = input.to_lowercase();
        let actual = SimdStringOps::to_lowercase_simd(&input);
        assert_eq!(actual, expected, "to_lowercase_simd failed for input: '{}'", input);
    }
}

#[test]
fn test_simd_string_contains() {
    let test_cases = vec![
        ("hello world", "world", true),
        ("hello world", "hello", true),
        ("hello world", "lo wo", true),
        ("hello world", "xyz", false),
        ("hello world", "", true),
        ("", "hello", false),
        ("", "", true),
        ("a", "a", true),
        ("a", "b", false),
        ("abcdefghijklmnopqrstuvwxyz", "mnop", true),
        ("abcdefghijklmnopqrstuvwxyz", "xyz", true),
        ("abcdefghijklmnopqrstuvwxyz", "abc", true),
    ];
    for (haystack, needle, expected) in test_cases {
        let actual = SimdStringOps::contains_simd(haystack, needle);
        assert_eq!(actual, expected, "contains_simd failed for haystack: '{}', needle: '{}', expected: {}, actual: {}", haystack, needle, expected, actual);
    }
}

#[test]
fn test_cpu_feature_detection() {
    let capabilities = SimdCapabilities::detect();
    assert!(capabilities.avx2 || capabilities.neon || !capabilities.has_simd(), "CPU feature detection should be consistent");
    let simd_type = capabilities.get_best_simd_type();
    match simd_type {
        SimdType::AVX2 => assert!(capabilities.avx2, "AVX2 should be detected if type is AVX2"),
        SimdType::NEON => assert!(capabilities.neon, "NEON should be detected if type is NEON"),
        SimdType::Scalar => assert!(!capabilities.has_simd(), "Scalar should be used when no SIMD available"),
    }
}

#[test]
fn tests_test_simd_type_consistency() {
    let simd_type = get_best_simd_type();
    let capabilities = get_simd_capabilities();
    match simd_type {
        SimdType::AVX2 => assert!(capabilities.avx2, "AVX2 type should match capabilities"),
        SimdType::NEON => assert!(capabilities.neon, "NEON type should match capabilities"),
        SimdType::Scalar => assert!(!capabilities.has_simd(), "Scalar type should match capabilities"),
    }
}

#[test]
fn test_string_operation_properties() {
    let test_strings = vec![
        "hello world",
        "HELLO WORLD",
        "Hello World",
        "hElLo WoRlD",
        "abcdefghijklmnopqrstuvwxyz",
        "ABCDEFGHIJKLMNOPQRSTUVWXYZ",
    ];
    for string in test_strings {
        let upper1 = SimdStringOps::to_uppercase_simd(string);
        let upper2 = SimdStringOps::to_uppercase_simd(&upper1);
        assert_eq!(upper1, upper2, "to_uppercase should be idempotent for: '{}'", string);
        let lower1 = SimdStringOps::to_lowercase_simd(string);
        let lower2 = SimdStringOps::to_lowercase_simd(&lower1);
        assert_eq!(lower1, lower2, "to_lowercase should be idempotent for: '{}'", string);
    }
}

#[test]
fn test_string_contains_properties() {
    let test_strings = vec!["a", "ab", "abc", "hello", "hello world", "abcdefghijklmnopqrstuvwxyz"];
    for string in test_strings {
        if !string.is_empty() {
            assert!(SimdStringOps::contains_simd(string, string), "String should contain itself: '{}'", string);
        }
    }
}

#[test]
fn test_string_contains_transitivity() {
    let test_cases = vec![
        ("hello world", "hello", "he"),
        ("abcdefghijklmnopqrstuvwxyz", "def", "ef"),
        ("hello world", "world", "or"),
    ];
    for (s1, s2, s3) in test_cases {
        let s1_contains_s2 = SimdStringOps::contains_simd(s1, s2);
        let s2_contains_s3 = SimdStringOps::contains_simd(s2, s3);
        let s1_contains_s3 = SimdStringOps::contains_simd(s1, s3);
        if s1_contains_s2 && s2_contains_s3 {
            assert!(s1_contains_s3, "Contains should be transitive: '{}' contains '{}' and '{}' contains '{}', so '{}' should contain '{}'", s1, s2, s2, s3, s1, s3);
        }
    }
}

#[test]
fn property_tests_test_simd_type_consistency() {
    let simd_type1 = get_best_simd_type();
    let simd_type2 = get_best_simd_type();
    let simd_type3 = get_best_simd_type();
    assert_eq!(simd_type1, simd_type2, "SIMD type should be consistent");
    assert_eq!(simd_type2, simd_type3, "SIMD type should be consistent");
}

#[test]
fn test_cpu_capabilities_consistency() {
    let caps1 = get_simd_capabilities();
    let caps2 = get_simd_capabilities();
    let caps3 = get_simd_capabilities();
    assert_eq!(caps1.avx2, caps2.avx2, "AVX2 detection should be consistent");
    assert_eq!(caps1.neon, caps2.neon, "NEON detection should be consistent");
    assert_eq!(caps1.sse2, caps2.sse2, "SSE2 detection should be consistent");
    assert_eq!(caps1.sse4_1, caps2.sse4_1, "SSE4.1 detection should be consistent");
    assert_eq!(caps2.avx2, caps3.avx2, "AVX2 detection should be consistent");
    assert_eq!(caps2.neon, caps3.neon, "NEON detection should be consistent");
    assert_eq!(caps2.sse2, caps3.sse2, "SSE2 detection should be consistent");
    assert_eq!(caps2.sse4_1, caps3.sse4_1, "SSE4.1 detection should be consistent");
}

#[test]
fn lane_kernels_match_scalar_for_every_length() {
    for len in [0usize, 1, 2, 3, 4, 5, 7, 8, 15, 16, 17, 31, 33, 63, 65, 127, 129, 1000] {
        let data = generate_test_data_i64(len);
        let expected = ScalarOps::sum_i64(&data);
        assert_eq!(Arm64SimdOps::sum_i64(&data), expected, "two-lane sum, length {}", len);
        assert_eq!(X86_64SimdOps::sum_i64(&data), expected, "four-lane sum, length {}", len);
        assert_eq!(Arm64SimdOps::min_max_i64(&data), ScalarOps::min_max_i64(&data));
        assert_eq!(X86_64SimdOps::min_max_i64(&data), ScalarOps::min_max_i64(&data));
    }
}

#[test]
fn sum_wraps_on_overflow() {
    let data = vec![i64::MAX, 1, 2, 3, 4];
    let expected = data.iter().fold(0i64, |a, b| a.wrapping_add(*b));
    assert_eq!(SimdOps::sum_i64(&data), expected);
    assert_eq!(X86_64SimdOps::sum_i64(&data), expected);
    assert_eq!(Arm64SimdOps::sum_i64(&data), expected);
    assert_eq!(expected, i64::MIN + 9);
}

#[test]
fn empty_and_single_inputs() {
    assert_eq!(SimdOps::sum_i64(&[]), 0);
    assert_eq!(SimdOps::sum_i64(&[42]), 42);
    assert_eq!(SimdOps::min_max_i64(&[]), (0, 0));
    assert_eq!(SimdOps::min_max_i64(&[42]), (42, 42));
    assert_eq!(ScalarOps::min_max_i64(&[3, -7, 12, 0]), (-7, 12));
}

#[test]
fn feature_queries_match_capabilities() {
    let caps = get_simd_capabilities();
    assert_eq!(has_avx2(), caps.avx2);
    assert_eq!(has_neon(), caps.neon);
    assert_eq!(has_sse2(), caps.sse2);
    assert_eq!(has_sse4_1(), caps.sse4_1);
    let wide = SimdCapabilities { avx2: true, neon: false, sse2: true, sse4_1: true };
    assert_eq!(wide.get_best_simd_type(), SimdType::AVX2);
    let narrow = SimdCapabilities { avx2: false, neon: true, sse2: false, sse4_1: false };
    assert_eq!(narrow.get_best_simd_type(), SimdType::NEON);
    assert!(narrow.has_simd());
    assert_eq!(SimdCapabilities::new().get_best_simd_type(), SimdType::Scalar);
}

#[test]
fn case_mapping_changes_the_string() {
    assert_eq!(ScalarStringOps::to_uppercase_simd("straße"), "STRASSE");
    assert_eq!(ScalarStringOps::to_lowercase_simd("ÀB"), "àb");
    assert!(ScalarStringOps::contains_simd("naïve", "ïv"));
    assert!(!ScalarStringOps::contains_simd("abc", "abcd"));
}

#[test]
fn benchmark_entry_points_run_the_kernels() {
    let data = generate_test_data_i64(257);
    assert_eq!(SimdBenchmarks::benchmark_sum_i64(&data), data.iter().sum::<i64>());
    assert_eq!(SimdBenchmarks::benchmark_min_max_i64(&data), (-1000, -1000 + 3 * 256));
    assert_eq!(SimdBenchmarks::benchmark_string_uppercase("abc"), "ABC");
    assert!(SimdBenchmarks::benchmark_string_contains("abcdef", "cde"));
    assert_eq!(SimdOps::get_capabilities(), get_simd_capabilities());
    assert_eq!(SimdOps::get_simd_type(), get_best_simd_type());
}
