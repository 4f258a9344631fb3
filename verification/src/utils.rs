//! The alphabet provider and the supporting types: the default symbol
//! list, the once-per-run random permutation of it, and the argument
//! and error types of the tool built around the codec.

use vstd::prelude::*;

verus! {

/// The default alphabet: emoji, each a single character, pairwise
/// distinct.
pub const EMOJI_LIST: &'static str = "\
✊✋⬛🌍🌎🌏🌑🌒🌓🌔🌕🌖🌗🌘🌙🌚🌛🌜🌝🌞🌟🍇🍉🍊🍋🍌🍎🍏🍐🐃🐅🐆🐊🐋🐌🐍🐒🐔🐗🐘🐙🐛🐜🐝🐞🐟\
🐠🐡🐢🐣🐤🐥🐦🐧🐨🐪🐫🐬🐭🐮🐯🐰🐱🐳🐴🐵🐶🐷🐸🐹🐺🐻🐼🐽👀👁👆👇👈👉👊👋👌👍👏👐👻👽👿💀💨💩\
💪💫🕷🕸🖐🖖😀😁😂😃😄😆😇😈😉😊😋😌😍😎😏😐😑😒😔😕😖😗😘😙😚😛😜😝😦😧😨😪😬😮😯😱😲😳😴😵\
😶😷😸😹😺😻😼😽😾😿🙀🙂🙈🙉🙊🙌🙏🤌🤏🤐🤑🤓🤔🤗🤘🤙🤚🤛🤜🤝🤞🤟🤠🤡🤣🤤🤥🤨🤩🤪🤫🤭🤯🤲🥰🥱\
🥲🥳🥴🥶🥸🥺🦀🦁🦂🦄🦅🦆🦇🦈🦉🦊🦋🦍🦎🦏🦐🦑🦒🦓🦕🦖🦗🦘🦛🦞🦟🦣🦧🦬🦭🦾🧐🧠🪐🪰🪱🪲🪳";

/// Relies on `rand::seq::SliceRandom::shuffle` (a Fisher-Yates
/// shuffle, in place) and `rand::thread_rng`: the result is a
/// permutation of the input's characters, drawn from a process-local
/// random source.
#[verifier::external_body]
pub fn shuffle_string(s: &str) -> (r: String)
    ensures
        r@.to_multiset() == s@.to_multiset(),
{
    let mut chars: Vec<char> = s.chars().collect();
    rand::seq::SliceRandom::shuffle(chars.as_mut_slice(), &mut rand::thread_rng());
    chars.into_iter().collect()
}

/// Relies on `String::push`: appends the given character to the end
/// of the string.
#[verifier::external_body]
pub(crate) fn push_char(s: &mut String, c: char)
    ensures
        final(s)@ == old(s)@.push(c),
{
    s.push(c)
}

/// A permutation of a duplicate-free sequence is duplicate-free, so a
/// shuffled alphabet keeps the round-trip guarantee of the codec.
pub proof fn lemma_permutation_preserves_no_duplicates(s: Seq<char>, r: Seq<char>)
    requires
        s.no_duplicates(),
        r.to_multiset() == s.to_multiset(),
    ensures
        r.no_duplicates(),
{
    s.lemma_multiset_has_no_duplicates();
    r.lemma_multiset_has_no_duplicates_conv();
}

/// What the command line asks of the tool.
pub struct Args {
    /// The remote whose branches share the namespace.
    pub remote: Option<String>,
    /// The path of the local repository.
    pub repo: Option<String>,
    /// Whether to create the new branch, not just print its name.
    pub branch: bool,
    /// Whether to list the identifiers already taken and exit.
    pub all: bool,
    /// How talkative the run is.
    pub verbose: u8,
}

impl Args {
    /// The log filter that the verbosity level selects.
    pub fn log_filter(&self) -> (r: &'static str)
        ensures
            self.verbose == 0 ==> r@ == "error"@,
            self.verbose == 1 ==> r@ == "warn"@,
            self.verbose == 2 ==> r@ == "info"@,
            self.verbose == 3 ==> r@ == "debug"@,
            self.verbose >= 4 ==> r@ == "trace"@,
    {
        match self.verbose {
            0 => "error",
            1 => "warn",
            2 => "info",
            3 => "debug",
            _ => "trace",
        }
    }
}

/// The failures the tool reports to its user.
#[derive(Debug)]
pub enum AppError {
    /// The repository's head does not point at a branch.
    NotOnBranch,
    /// Several remotes exist and none was named.
    RemoteNotSpecified,
}

impl AppError {
    /// The message shown for this failure.
    pub fn message(&self) -> (r: &'static str)
        ensures
            self is NotOnBranch ==> r@ == "Not on any branch"@,
            self is RemoteNotSpecified ==> r@ == "Multiple remotes, none specified"@,
    {
        match self {
            AppError::NotOnBranch => "Not on any branch",
            AppError::RemoteNotSpecified => "Multiple remotes, none specified",
        }
    }
}

} // verus!
