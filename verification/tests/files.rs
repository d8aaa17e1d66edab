use upload_download::files::{
    candidate_name, find_available_path, safe_file_name, sort_newest_first, upload_file_name,
    FileInfo, PathStep, LAST_SUFFIX,
};

#[test]
fn first_candidate_is_the_name_itself() {
    assert_eq!(candidate_name("report.pdf", 1), "report.pdf");
    assert_eq!(candidate_name("report.pdf", 0), "report.pdf");
}

#[test]
fn candidates_insert_number_before_extension() {
    assert_eq!(candidate_name("report.pdf", 2), "report-2.pdf");
    assert_eq!(candidate_name("report.pdf", 17), "report-17.pdf");
    assert_eq!(candidate_name("archive.tar.gz", 2), "archive.tar-2.gz");
}

#[test]
fn candidates_without_extension() {
    assert_eq!(candidate_name("README", 3), "README-3");
    assert_eq!(candidate_name(".bashrc", 2), ".bashrc-2");
    assert_eq!(candidate_name("a.", 2), "a-2");
    assert_eq!(candidate_name("..", 2), "-2");
    assert_eq!(candidate_name("", 2), "-2");
}

#[test]
fn candidates_use_last_path_component() {
    assert_eq!(candidate_name("dir/x.txt", 2), "x-2.txt");
    assert_eq!(candidate_name("dir/x.txt/", 2), "x-2.txt");
    assert_eq!(candidate_name("a/.", 2), "a-2");
    assert_eq!(candidate_name("/", 2), "-2");
    assert_eq!(candidate_name("a/..", 2), "-2");
}

#[test]
fn candidates_large_number() {
    assert_eq!(candidate_name("f.txt", LAST_SUFFIX), "f-2147483647.txt");
}

#[test]
fn search_settles_on_free_name() {
    match find_available_path("photo.jpg", 1, false) {
        PathStep::Settle(n) => assert_eq!(n, "photo.jpg"),
        PathStep::Probe(..) => panic!("a free name must be used"),
    }
}

#[test]
fn search_probes_next_candidate() {
    match find_available_path("photo.jpg", 1, true) {
        PathStep::Probe(n, a) => {
            assert_eq!(n, "photo-2.jpg");
            assert_eq!(a, 2);
        }
        PathStep::Settle(_) => panic!("a taken name must not be used"),
    }
    match find_available_path("photo.jpg", 2, true) {
        PathStep::Probe(n, a) => {
            assert_eq!(n, "photo-3.jpg");
            assert_eq!(a, 3);
        }
        PathStep::Settle(_) => panic!("a taken name must not be used"),
    }
    match find_available_path("photo.jpg", 3, false) {
        PathStep::Settle(n) => assert_eq!(n, "photo-3.jpg"),
        PathStep::Probe(..) => panic!("a free name must be used"),
    }
}

#[test]
fn search_falls_back_after_last_suffix() {
    match find_available_path("photo.jpg", LAST_SUFFIX, true) {
        PathStep::Settle(n) => assert_eq!(n, "photo.jpg"),
        PathStep::Probe(..) => panic!("no suffix is left"),
    }
}

#[test]
fn search_loop_over_taken_names() {
    let taken = ["a.txt", "a-2.txt", "a-3.txt"];
    let mut attempt = 1;
    let mut name = candidate_name("a.txt", 1);
    let chosen = loop {
        match find_available_path("a.txt", attempt, taken.contains(&name.as_str())) {
            PathStep::Settle(n) => break n,
            PathStep::Probe(n, a) => {
                name = n;
                attempt = a;
            }
        }
    };
    assert_eq!(chosen, "a-4.txt");
}

#[test]
fn upload_name_replaces_separators() {
    assert_eq!(upload_file_name(Some("a/b\\c.txt")), "a_b_c.txt");
    assert_eq!(upload_file_name(Some("../../etc/passwd")), ".._.._etc_passwd");
    assert_eq!(upload_file_name(Some("plain.txt")), "plain.txt");
    assert_eq!(upload_file_name(Some("")), "");
}

#[test]
fn upload_name_defaults_to_file() {
    assert_eq!(upload_file_name(None), "file");
}

fn info(name: &str, modified: &str) -> FileInfo {
    FileInfo { name: name.to_string(), size: 1, modified: modified.to_string() }
}

#[test]
fn listing_is_newest_first_and_stable() {
    let entries = vec![
        info("a", "2024-01-01 10:00:00"),
        info("b", "2024-03-01 10:00:00"),
        info("c", "2024-01-01 10:00:00"),
        info("d", "2023-12-31 23:59:59"),
        info("e", "2024-03-01 10:00:00"),
    ];
    let sorted = sort_newest_first(entries);
    let names: Vec<&str> = sorted.iter().map(|f| f.name.as_str()).collect();
    assert_eq!(names, vec!["b", "e", "a", "c", "d"]);
}

#[test]
fn listing_of_nothing() {
    assert!(sort_newest_first(Vec::new()).is_empty());
}

#[test]
fn suffixed_candidates_are_all_different() {
    let names: Vec<String> = (2..200).map(|i| candidate_name("x.y", i)).collect();
    for (i, a) in names.iter().enumerate() {
        for b in &names[i + 1..] {
            assert_ne!(a, b);
        }
    }
}

#[test]
fn stored_names_hold_no_separator() {
    let safe = upload_file_name(Some("../a\\b/c.tar.gz"));
    for attempt in 1..20 {
        let n = candidate_name(&safe, attempt);
        assert!(!n.contains('/') && !n.contains('\\'), "{}", n);
    }
    assert_eq!(candidate_name(&safe, 2), ".._a_b_c.tar-2.gz");
}

#[test]
fn safe_names_stay_in_the_directory() {
    assert!(safe_file_name("a.txt"));
    assert!(safe_file_name("..a"));
    assert!(safe_file_name(".bashrc"));
    assert!(!safe_file_name("../config/config.toml"));
    assert!(!safe_file_name("/etc/passwd"));
    assert!(!safe_file_name("a\\b"));
    assert!(!safe_file_name(".."));
    assert!(!safe_file_name("."));
    assert!(!safe_file_name(""));
}

#[test]
fn search_skips_names_outside_the_directory() {
    // ".." is free but not an entry of the directory: the next candidate is asked for
    match find_available_path("..", 1, false) {
        PathStep::Probe(n, a) => {
            assert_eq!(a, 2);
            assert_eq!(n, candidate_name("..", 2));
        }
        PathStep::Settle(_) => panic!("settled on .."),
    }
}

#[test]
fn upload_named_dotdot_lands_inside_the_directory() {
    let name = upload_file_name(Some(".."));
    assert_eq!(name, "..");
    let taken = ["-2"];
    let mut attempt = 1;
    let mut probe = candidate_name(&name, 1);
    let chosen = loop {
        match find_available_path(&name, attempt, taken.contains(&probe.as_str())) {
            PathStep::Settle(n) => break n,
            PathStep::Probe(n, a) => {
                probe = n;
                attempt = a;
            }
        }
    };
    assert_eq!(chosen, "-3");
    assert!(safe_file_name(&chosen));
}

#[test]
fn search_uses_the_made_safe_name() {
    match find_available_path("a\\b", 1, false) {
        PathStep::Settle(n) => assert_eq!(n, "a_b"),
        PathStep::Probe(_, _) => panic!("a free name must be settled on"),
    }
    match find_available_path("x/y.txt", 1, true) {
        PathStep::Probe(n, a) => {
            assert_eq!(a, 2);
            assert_eq!(n, "x_y-2.txt");
        }
        PathStep::Settle(_) => panic!("a taken name must not be settled on"),
    }
}
