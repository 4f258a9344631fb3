use anybase::{shuffle_string, AnyBase, AppError, Args, EMOJI_LIST};

#[test]
fn test_shuffle_is_permutation() {
    let shuffled = shuffle_string(EMOJI_LIST);
    let mut before: Vec<char> = EMOJI_LIST.chars().collect();
    let mut after: Vec<char> = shuffled.chars().collect();
    before.sort();
    after.sort();
    assert_eq!(before, after);
}

#[test]
fn test_shuffled_alphabet_still_round_trips() {
    let shuffled = shuffle_string(EMOJI_LIST);
    assert!(anybase::unique_symbols(shuffled.as_str()));
    let base = AnyBase::new(shuffled.as_str());
    for n in 1..=500usize {
        assert_eq!(base.map_ord(base.map_emoji(n).as_str()), Some(n));
    }
}

#[test]
fn test_log_filter_levels() {
    let mut args = Args { remote: None, repo: None, branch: false, all: false, verbose: 0 };
    assert_eq!(args.log_filter(), "error");
    args.verbose = 1;
    assert_eq!(args.log_filter(), "warn");
    args.verbose = 2;
    assert_eq!(args.log_filter(), "info");
    args.verbose = 3;
    assert_eq!(args.log_filter(), "debug");
    args.verbose = 4;
    assert_eq!(args.log_filter(), "trace");
    args.verbose = 200;
    assert_eq!(args.log_filter(), "trace");
}

#[test]
fn test_app_error_messages() {
    assert_eq!(AppError::NotOnBranch.message(), "Not on any branch");
    assert_eq!(
        AppError::RemoteNotSpecified.message(),
        "Multiple remotes, none specified"
    );
}
