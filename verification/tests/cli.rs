//! What the arguments of the tools mean, and which of them are refused.

use artools::ardisk;
use artools::arfind;
use artools::argrep;
use artools::argrep::cli::{
    build_config, check_flags, compile_glob, context_lines_parser, exit_code, fault_exit_code,
    io_error_summary, max_count_parser, resolve_subject, uses_stdin, warns_of_context,
    MAX_CONTEXT_LINES,
};
use artools::argrep::types::{expand_types, type_table};
use artools::argrep::{
    known_type_names, type_globs, type_name_parser, Args, SearchConfig, SearchStats,
};
use artools::numbers::{default_jobs, parse_jobs, parse_number};
use glob::Pattern;

/// The arguments of `argrep foo .`.
fn search_args() -> Args {
    Args {
        query: Some("foo".to_string()),
        path: Some(".".to_string()),
        ..Args::new(8)
    }
}

fn config_of(args: &Args) -> SearchConfig {
    check_flags(args).unwrap();
    build_config(args, "foo").unwrap()
}

#[test]
fn jobs_zero_is_rejected_at_parse_time() {
    let result = parse_jobs("0", ardisk::cli::MAX_JOBS);
    assert!(result.is_err(), "-j 0 must be a CLI parse error");
}

#[test]
fn main_jobs_zero_is_rejected_at_parse_time() {
    let result = parse_jobs("0", argrep::cli::MAX_JOBS);
    assert!(result.is_err(), "-j 0 must be a CLI parse error");
}

#[test]
fn jobs_one_is_accepted() {
    assert_eq!(parse_jobs("1", ardisk::cli::MAX_JOBS).unwrap(), 1);
}

#[test]
fn main_jobs_one_is_accepted() {
    assert_eq!(parse_jobs("1", argrep::cli::MAX_JOBS).unwrap(), 1);
}

#[test]
fn jobs_two_is_accepted() {
    assert_eq!(parse_jobs("2", ardisk::cli::MAX_JOBS).unwrap(), 2);
}

#[test]
fn main_jobs_two_is_accepted() {
    assert_eq!(parse_jobs("2", argrep::cli::MAX_JOBS).unwrap(), 2);
}

#[test]
fn default_jobs_matches_half_available_parallelism_clamped() {
    for cpus in [0usize, 1, 2, 3, 4, 8, 16, 31, 32, 33, 34, 64, 128, usize::MAX] {
        let expected = (cpus / 2).clamp(1, 16);
        assert_eq!(default_jobs(cpus), expected);
    }
}

fn check_default_jobs(jobs: usize, cpus: usize) {
    assert_eq!(
        jobs,
        default_jobs(cpus),
        "default -j must match the CPU-aware formula, not a hardcoded value"
    );
    assert!(
        (1..=16).contains(&jobs),
        "default -j must stay within the clamped [1, 16] range regardless \
         of how many cores the machine reports: got {}",
        jobs
    );
}

#[test]
fn jobs_default_is_cpu_aware() {
    for cpus in [1usize, 8, 64] {
        check_default_jobs(ardisk::Args::new(cpus).jobs, cpus);
    }
}

#[test]
fn main_jobs_default_is_cpu_aware() {
    for cpus in [1usize, 8, 64] {
        check_default_jobs(Args::new(cpus).jobs, cpus);
    }
}

#[test]
fn numbers_of_jobs_have_an_upper_bound() {
    assert_eq!(parse_jobs("128", argrep::cli::MAX_JOBS).unwrap(), 128);
    assert_eq!(
        parse_jobs("129", argrep::cli::MAX_JOBS).unwrap_err(),
        "129 is not in 1..=128"
    );
    assert!(parse_jobs("65536", ardisk::cli::MAX_JOBS).is_err());
    assert!(parse_jobs("four", argrep::cli::MAX_JOBS).is_err());
    assert!(parse_jobs("", argrep::cli::MAX_JOBS).is_err());
}

#[test]
fn numbers_are_read_as_far_as_they_go() {
    assert_eq!(parse_number("0"), Some(0));
    assert_eq!(parse_number("+7"), Some(7));
    assert_eq!(parse_number("007"), Some(7));
    assert_eq!(parse_number("18446744073709551615"), Some(u64::MAX));
    assert_eq!(parse_number("18446744073709551616"), None);
    assert_eq!(parse_number("-1"), None);
    assert_eq!(parse_number("+"), None);
    assert_eq!(parse_number(" 1"), None);
}

#[test]
fn default_ignores_included_when_not_no_ignore() {
    let dirs = ardisk::build_ignore_dirs(false, vec![]);
    assert!(dirs.contains(".git"));
    assert!(dirs.contains("node_modules"));
    assert!(dirs.contains("__pycache__"));
}

#[test]
fn main_default_ignores_included_when_not_no_ignore() {
    let (names, _patterns) = argrep::build_ignore_dirs(false, &vec![]).unwrap();
    assert!(names.contains(".git"));
    assert!(names.contains("node_modules"));
    assert!(names.contains("__pycache__"));
    assert!(names.contains("target"));
}

#[test]
fn no_ignore_excludes_default_ignores() {
    let dirs = ardisk::build_ignore_dirs(true, vec![]);
    assert!(dirs.is_empty());
}

#[test]
fn main_no_ignore_excludes_default_ignores() {
    let (names, patterns) = argrep::build_ignore_dirs(true, &vec![]).unwrap();
    assert!(names.is_empty());
    assert!(patterns.is_empty());
}

#[test]
fn explicit_ignore_honored_alongside_defaults() {
    let dirs = ardisk::build_ignore_dirs(false, vec!["vendor".to_string()]);
    assert!(dirs.contains("vendor"));
    assert!(dirs.contains(".git"));
}

#[test]
fn main_explicit_ignore_honored_alongside_defaults() {
    let (names, _patterns) = argrep::build_ignore_dirs(false, &vec!["vendor".to_string()]).unwrap();
    assert!(names.contains("vendor"));
    assert!(names.contains(".git"));
}

#[test]
fn explicit_ignore_honored_even_with_no_ignore() {
    let dirs = ardisk::build_ignore_dirs(true, vec!["vendor".to_string()]);
    assert_eq!(dirs.len(), 1);
    assert!(dirs.contains("vendor"));
}

#[test]
fn main_explicit_ignore_honored_even_with_no_ignore() {
    let (names, patterns) = argrep::build_ignore_dirs(true, &vec!["vendor".to_string()]).unwrap();
    assert_eq!(names.len(), 1);
    assert!(names.contains("vendor"));
    assert!(patterns.is_empty());
}

#[test]
fn arfind_skips_names_like_the_others() {
    let dirs = arfind::build_ignore_dirs(false, &vec!["vendor".to_string()]);
    for name in arfind::DEFAULT_IGNORES {
        assert!(dirs.contains(name));
    }
    assert!(dirs.contains("vendor"));
    assert_eq!(dirs.len(), 4);
    assert!(arfind::build_ignore_dirs(true, &vec![]).is_empty());
}

#[test]
fn glob_exclude_dir_entry_becomes_a_pattern_not_a_literal_name() {
    let (names, patterns) = argrep::build_ignore_dirs(true, &vec!["build*".to_string()]).unwrap();
    assert!(names.is_empty());
    assert_eq!(patterns.len(), 1);
    assert!(patterns[0].matches("build"));
    assert!(patterns[0].matches("build-tools"));
    assert!(!patterns[0].matches("target"));
}

#[test]
fn plain_and_glob_exclude_dir_entries_can_be_combined() {
    let (names, patterns) = argrep::build_ignore_dirs(
        true,
        &vec!["node_modules".to_string(), "build*".to_string()],
    )
    .unwrap();
    assert!(names.contains("node_modules"));
    assert_eq!(patterns.len(), 1);
}

#[test]
fn count_and_files_with_matches_together_is_rejected_at_parse_time() {
    let args = Args {
        count_per_file: true,
        files_with_matches: true,
        ..search_args()
    };
    let result = check_flags(&args);
    assert!(result.is_err(), "-c -l together must be a CLI parse error");
}

#[test]
fn count_and_files_with_matches_together_is_rejected_regardless_of_order() {
    let args = Args {
        files_with_matches: true,
        count_per_file: true,
        ..search_args()
    };
    let result = check_flags(&args);
    assert!(result.is_err(), "-l -c together must be a CLI parse error");
    assert_eq!(
        result.unwrap_err(),
        "the argument '--files-with-matches' cannot be used with '--count'"
    );
}

#[test]
fn count_alone_is_accepted() {
    let args = Args {
        count_per_file: true,
        ..search_args()
    };
    let config = config_of(&args);
    assert!(config.count_per_file);
    assert!(!config.files_with_matches);
}

#[test]
fn files_with_matches_alone_is_accepted() {
    let args = Args {
        files_with_matches: true,
        ..search_args()
    };
    let config = config_of(&args);
    assert!(config.files_with_matches);
    assert!(!config.count_per_file);
}

#[test]
fn files_without_match_defaults_to_false() {
    assert!(!search_args().files_without_match);
    assert!(!config_of(&search_args()).files_without_match);
}

#[test]
fn files_without_match_short_flag_is_parsed() {
    let args = Args {
        files_without_match: true,
        ..search_args()
    };
    assert!(config_of(&args).files_without_match);
}

#[test]
fn files_without_match_and_files_with_matches_together_is_rejected() {
    let args = Args {
        files_without_match: true,
        files_with_matches: true,
        ..search_args()
    };
    let result = check_flags(&args);
    assert!(result.is_err(), "-L -l together must be a CLI parse error");
}

#[test]
fn files_without_match_and_files_with_matches_together_is_rejected_regardless_of_order() {
    let args = Args {
        files_with_matches: true,
        files_without_match: true,
        ..search_args()
    };
    let result = check_flags(&args);
    assert!(result.is_err(), "-l -L together must be a CLI parse error");
}

#[test]
fn files_without_match_and_count_together_is_rejected() {
    let args = Args {
        files_without_match: true,
        count_per_file: true,
        ..search_args()
    };
    let result = check_flags(&args);
    assert!(result.is_err(), "-L -c together must be a CLI parse error");
}

#[test]
fn files_without_match_can_be_combined_with_invert() {
    let args = Args {
        files_without_match: true,
        invert: true,
        ..search_args()
    };
    let config = config_of(&args);
    assert!(config.files_without_match);
    assert!(config.invert);
}

#[test]
fn hidden_flag_defaults_to_false() {
    assert!(!search_args().hidden);
    assert!(!config_of(&search_args()).hidden);
}

#[test]
fn hidden_flag_is_parsed() {
    let args = Args {
        hidden: true,
        ..search_args()
    };
    assert!(config_of(&args).hidden);
}

#[test]
fn hidden_and_no_ignore_can_be_combined() {
    let args = Args {
        hidden: true,
        no_ignore: true,
        ..search_args()
    };
    let config = config_of(&args);
    assert!(config.hidden);
    assert!(!config.respect_gitignore);
    assert!(config.ignore_dirs.is_empty());
}

#[test]
fn hidden_does_not_imply_no_ignore() {
    let args = Args {
        hidden: true,
        ..search_args()
    };
    let config = config_of(&args);
    assert!(config.hidden);
    assert!(
        config.respect_gitignore && config.ignore_dirs.contains(".git"),
        "--hidden alone must not also set --no-ignore — they're \
         separate filtering layers"
    );
}

#[test]
fn type_defaults_to_empty() {
    let args = search_args();
    assert!(args.types.is_empty());
    assert!(args.type_not.is_empty());
    let config = config_of(&args);
    assert!(config.type_patterns.is_empty());
    assert!(config.type_not_patterns.is_empty());
}

#[test]
fn type_accepts_a_known_name() {
    assert_eq!(type_name_parser("rust").unwrap(), "rust".to_string());
}

#[test]
fn type_can_be_given_multiple_times() {
    let types = vec![
        type_name_parser("rust").unwrap(),
        type_name_parser("python").unwrap(),
    ];
    assert_eq!(types, vec!["rust".to_string(), "python".to_string()]);
    let args = Args {
        types,
        ..search_args()
    };
    let texts: Vec<String> = config_of(&args)
        .type_patterns
        .iter()
        .map(|p| p.as_str().to_string())
        .collect();
    assert_eq!(texts, vec!["*.rs", "*.py", "*.pyi"]);
}

#[test]
fn type_rejects_an_unknown_name_at_parse_time() {
    let result = type_name_parser("cobol");
    assert!(
        result.is_err(),
        "an unknown --type name must be a CLI parse error, not a \
         silently-empty filter"
    );
}

#[test]
fn type_not_accepts_a_known_name() {
    let type_not = vec![type_name_parser("javascript").unwrap()];
    assert_eq!(type_not, vec!["javascript".to_string()]);
    let args = Args {
        type_not,
        ..search_args()
    };
    assert_eq!(config_of(&args).type_not_patterns.len(), 4);
}

#[test]
fn type_not_rejects_an_unknown_name_at_parse_time() {
    assert!(type_name_parser("cobol").is_err());
    assert!(expand_types(&vec!["cobol".to_string()]).is_err());
}

#[test]
fn type_and_type_not_can_be_combined() {
    let args = Args {
        types: vec![type_name_parser("rust").unwrap()],
        type_not: vec![type_name_parser("rust").unwrap()],
        ..search_args()
    };
    let config = config_of(&args);
    assert_eq!(config.type_patterns[0].as_str(), "*.rs");
    assert_eq!(config.type_not_patterns[0].as_str(), "*.rs");
}

#[test]
fn all_type_table_entries_compile_as_valid_globs() {
    for file_type in type_table() {
        let name = file_type.name;
        assert!(!file_type.globs.is_empty(), "type '{name}' has no globs");
        for glob in &file_type.globs {
            assert!(
                Pattern::new(glob).is_ok(),
                "type '{name}' has an invalid glob: '{glob}'"
            );
        }
    }
}

#[test]
fn every_known_type_has_its_globs() {
    let known = known_type_names();
    for file_type in type_table() {
        assert!(known.contains(&file_type.name));
        assert_eq!(type_globs(&file_type.name), Some(file_type.globs));
        assert_eq!(type_name_parser(&file_type.name), Ok(file_type.name));
    }
    assert_eq!(type_globs("cobol"), None);
    assert!(type_name_parser("cobol").unwrap_err().contains(&known));
}

#[test]
fn fixed_strings_flag_defaults_to_false() {
    assert!(!search_args().fixed_strings);
}

#[test]
fn fixed_strings_short_flag_is_parsed() {
    let args = Args {
        query: Some("foo.bar".to_string()),
        fixed_strings: true,
        ..search_args()
    };
    let config = build_config(&args, "foo.bar").unwrap();
    assert_eq!(config.regex.as_str(), "foo\\.bar");
}

#[test]
fn whole_word_and_whole_line_default_to_false() {
    let args = search_args();
    assert!(!args.whole_word);
    assert!(!args.whole_line);
    assert_eq!(config_of(&args).regex.as_str(), "foo");
}

#[test]
fn whole_word_flag_is_parsed() {
    let args = Args {
        whole_word: true,
        ..search_args()
    };
    assert_eq!(config_of(&args).regex.as_str(), "\\b(?:foo)\\b");
}

#[test]
fn whole_line_flag_is_parsed() {
    let args = Args {
        whole_line: true,
        ..search_args()
    };
    assert_eq!(config_of(&args).regex.as_str(), "^(?:foo)$");
}

#[test]
fn whole_word_and_whole_line_can_be_combined() {
    let args = Args {
        whole_word: true,
        whole_line: true,
        ..search_args()
    };
    let regex = config_of(&args).regex;
    assert!(regex.is_match("foo"));
    assert!(!regex.is_match("foo bar"));
    assert!(!regex.is_match("food"));
}

#[test]
fn quiet_flag_defaults_to_false() {
    assert!(!search_args().quiet);
    assert!(!config_of(&search_args()).quiet);
}

#[test]
fn quiet_short_flag_is_parsed() {
    let args = Args {
        quiet: true,
        ..search_args()
    };
    assert!(config_of(&args).quiet);
}

#[test]
fn quiet_can_be_combined_with_other_output_flags_at_parse_time() {
    let args = Args {
        quiet: true,
        files_with_matches: true,
        ..search_args()
    };
    let config = config_of(&args);
    assert!(config.quiet);
    assert!(config.files_with_matches);
}

#[test]
fn only_matching_flag_defaults_to_false() {
    assert!(!search_args().only_matching);
    assert!(!config_of(&search_args()).only_matching);
}

#[test]
fn only_matching_short_flag_is_parsed() {
    let args = Args {
        only_matching: true,
        ..search_args()
    };
    assert!(config_of(&args).only_matching);
}

#[test]
fn only_matching_and_invert_together_is_rejected_at_parse_time() {
    let args = Args {
        only_matching: true,
        invert: true,
        ..search_args()
    };
    assert!(check_flags(&args).is_err());
}

#[test]
fn only_matching_can_be_combined_with_context_flags_at_parse_time() {
    let args = Args {
        only_matching: true,
        context: Some(context_lines_parser("2").unwrap()),
        ..search_args()
    };
    assert_eq!(args.context, Some(2));
    assert!(warns_of_context(&args));
    let config = config_of(&args);
    assert!(config.only_matching);
    assert_eq!(config.before_context, 0);
    assert_eq!(config.after_context, 0);
}

#[test]
fn only_matching_can_be_combined_with_count_and_files_flags() {
    let args = Args {
        only_matching: true,
        count_per_file: true,
        ..search_args()
    };
    let config = config_of(&args);
    assert!(config.only_matching);
    assert!(config.count_per_file);
}

#[test]
fn max_count_defaults_to_unlimited() {
    assert_eq!(search_args().max_count, None);
    assert_eq!(config_of(&search_args()).max_count, None);
}

#[test]
fn max_count_short_flag_is_parsed() {
    let args = Args {
        max_count: Some(max_count_parser("3").unwrap()),
        ..search_args()
    };
    assert_eq!(args.max_count, Some(3));
    assert_eq!(config_of(&args).max_count, Some(3));
}

#[test]
fn max_count_zero_is_rejected_at_parse_time() {
    assert!(max_count_parser("0").is_err());
}

#[test]
fn max_count_can_be_combined_with_context_and_invert() {
    let args = Args {
        max_count: Some(max_count_parser("2").unwrap()),
        context: Some(context_lines_parser("1").unwrap()),
        invert: true,
        ..search_args()
    };
    let config = config_of(&args);
    assert_eq!(config.max_count, Some(2));
    assert_eq!(config.before_context, 1);
    assert_eq!(config.after_context, 1);
    assert!(config.invert);
}

#[test]
fn exclude_defaults_to_empty() {
    assert!(search_args().exclude.is_empty());
    assert!(config_of(&search_args()).exclude_patterns.is_empty());
}

#[test]
fn exclude_can_be_given_multiple_times() {
    let args = Args {
        exclude: vec!["*.min.js".to_string(), "*.lock".to_string()],
        ..search_args()
    };
    let texts: Vec<String> = config_of(&args)
        .exclude_patterns
        .iter()
        .map(|p| p.as_str().to_string())
        .collect();
    assert_eq!(texts, vec!["*.min.js", "*.lock"]);
}

#[test]
fn exclude_dir_can_be_given_multiple_times() {
    let args = Args {
        exclude_dir: vec!["node_modules".to_string(), "build*".to_string()],
        ..search_args()
    };
    let config = config_of(&args);
    assert!(config.ignore_dirs.contains("node_modules"));
    assert_eq!(config.ignore_dir_patterns.len(), 1);
    assert_eq!(config.ignore_dir_patterns[0].as_str(), "build*");
}

#[test]
fn context_of_one_side_goes_before_that_of_both() {
    let args = Args {
        before_context: Some(0),
        context: Some(3),
        ..search_args()
    };
    let config = config_of(&args);
    assert_eq!(config.before_context, 0);
    assert_eq!(config.after_context, 3);
}

#[test]
fn context_has_an_upper_bound() {
    assert_eq!(context_lines_parser("0"), Ok(0));
    assert_eq!(
        context_lines_parser(&MAX_CONTEXT_LINES.to_string()),
        Ok(MAX_CONTEXT_LINES)
    );
    assert_eq!(
        context_lines_parser(&(MAX_CONTEXT_LINES + 1).to_string()).unwrap_err(),
        format!("context is too large; maximum is {}", MAX_CONTEXT_LINES)
    );
    assert_eq!(
        context_lines_parser("-1").unwrap_err(),
        "context must be a non-negative integer"
    );
}

#[test]
fn faulty_filters_are_told_by_their_flags() {
    let fault = compile_glob("[", "--include").unwrap_err();
    assert!(fault.contains("--include") && fault.contains("["));
    let args = Args {
        exclude: vec!["a".to_string(), "[".to_string()],
        ..search_args()
    };
    assert!(build_config(&args, "foo").err().unwrap().contains("--exclude"));
    let args = Args {
        exclude_dir: vec!["[".to_string()],
        ..search_args()
    };
    assert!(build_config(&args, "foo").is_err());
    assert!(build_config(&search_args(), "foo(bar").is_err());
}

#[test]
fn under_files_a_lone_argument_is_the_path() {
    let args = Args {
        query: Some("src".to_string()),
        path: None,
        files: true,
        ..Args::new(4)
    };
    let subject = resolve_subject(&args).unwrap();
    assert_eq!(subject.query, "");
    assert_eq!(subject.path, Some("src".to_string()));
    assert!(resolve_subject(&Args::new(4)).is_none());
    let plain = resolve_subject(&search_args()).unwrap();
    assert_eq!(plain.query, "foo");
    assert_eq!(plain.path, Some(".".to_string()));
}

#[test]
fn standard_input_is_read_when_there_is_nothing_else() {
    let args = Args::new(4);
    let dash = Some("-".to_string());
    assert!(uses_stdin(&args, &dash, true));
    assert!(uses_stdin(&args, &None, false));
    assert!(!uses_stdin(&args, &None, true));
    assert!(!uses_stdin(&args, &Some(".".to_string()), false));
    let files = Args {
        files: true,
        ..Args::new(4)
    };
    assert!(!uses_stdin(&files, &dash, false));
}

#[test]
fn exit_codes_tell_what_happened() {
    let none = SearchStats::new();
    let found = SearchStats {
        matched_lines: 1,
        ..none
    };
    let failed = SearchStats {
        matched_lines: 1,
        io_errors: 1,
        ..none
    };
    assert_eq!(exit_code(false, &none), 0);
    assert_eq!(exit_code(false, &found), 0);
    assert_eq!(exit_code(false, &failed), 1);
    assert_eq!(exit_code(true, &none), 1);
    assert_eq!(exit_code(true, &found), 0);
    assert_eq!(exit_code(true, &failed), 2);
    assert_eq!(fault_exit_code(false), 1);
    assert_eq!(fault_exit_code(true), 2);
}

#[test]
fn failures_to_read_are_summed_up() {
    assert_eq!(io_error_summary(0, false), None);
    assert_eq!(
        io_error_summary(3, false).unwrap(),
        "argrep: 3 file(s)/director(ies) could not be read (rerun with --debug for details)"
    );
    assert_eq!(
        io_error_summary(1, true).unwrap(),
        "argrep: 1 file(s)/director(ies) could not be read"
    );
}

#[test]
fn arfind_arguments_become_a_search() {
    let args = arfind::Args::default();
    let config = arfind::cli::build_config(&args).unwrap();
    assert_eq!(config.pattern.as_str(), "*");
    assert!(config.respect_gitignore && !config.hidden && !config.empty_only);
    assert_eq!(config.max_depth, None);
    assert_eq!(config.file_type, None);
    assert_eq!(config.size_filter, None);
    let args = arfind::Args {
        size: Some("-1KB".to_string()),
        no_ignore: true,
        ..arfind::Args::default()
    };
    let config = arfind::cli::build_config(&args).unwrap();
    assert_eq!(config.size_filter.unwrap().max, Some(1024));
    assert!(!config.respect_gitignore && config.ignore_dirs.is_empty());
    let args = arfind::Args {
        name: "[".to_string(),
        ..arfind::Args::default()
    };
    assert!(arfind::cli::build_config(&args).is_err());
    let args = arfind::Args {
        size: Some("big".to_string()),
        ..arfind::Args::default()
    };
    assert!(arfind::cli::build_config(&args).is_err());
}

#[test]
fn ardisk_arguments_become_a_plan() {
    let plan = ardisk::cli::build_plan(&ardisk::Args::new(8)).unwrap();
    assert_eq!(plan.report.top, 20);
    assert!(plan.config.include_pattern.is_none());
    assert!(plan.config.respect_gitignore);
    let args = ardisk::Args {
        threshold: Some("1KB".to_string()),
        include_pattern: Some("*.rs".to_string()),
        ..ardisk::Args::new(8)
    };
    let plan = ardisk::cli::build_plan(&args).unwrap();
    assert_eq!(plan.report.threshold, Some(1024));
    assert!(plan.report.filtered);
    let args = ardisk::Args {
        threshold: Some("1024".to_string()),
        ..ardisk::Args::new(8)
    };
    assert!(ardisk::cli::build_plan(&args).is_err());
    let args = ardisk::Args {
        include_pattern: Some("[".to_string()),
        ..ardisk::Args::new(8)
    };
    assert!(ardisk::cli::build_plan(&args).is_err());
}
