//! Target files: when to place them, in what order the steps and hooks run, and which
//! pack may write them.
use crate::error::Error;
use crate::keyuri::{sha256, sha256_of};
use crate::lookup::position;
use crate::strings::push_char;
use vstd::prelude::*;

verus! {

/// Prefix of the temporary file written next to a target before it is renamed over it.
pub const PLACER_TEMPFILE_PREFIX: &'static str = ".placer-tmp-";

/// Hook argument replaced by the path of the file being placed.
pub const FILENAME_PLACEHOLDER: &'static str = "%f";

/// SHA-256 digest of a file's contents.
pub struct Digest {
    bytes: Vec<u8>,
}

impl Digest {
    /// The digest bytes.
    pub closed spec fn view(&self) -> Seq<u8> {
        self.bytes@
    }

    /// The SHA-256 digest of the input.
    pub fn for_bytes(input: &[u8]) -> (r: Digest)
        ensures
            r.view() == sha256_of(input@),
    {
        Digest { bytes: sha256(input) }
    }

    /// The digest bytes.
    pub fn as_bytes(&self) -> (r: &[u8])
        ensures
            r@ == self.view(),
    {
        self.bytes.as_slice()
    }

    /// Whether two digests are equal.
    pub fn same_as(&self, other: &Digest) -> (r: bool)
        ensures
            r == (self.view() == other.view()),
    {
        if self.bytes.len() != other.bytes.len() {
            return false;
        }
        let mut i: usize = 0;
        while i < self.bytes.len()
            invariant
                i <= self.bytes@.len() == other.bytes@.len(),
                forall|j: int| 0 <= j < i ==> self.bytes@[j] == other.bytes@[j],
            decreases self.bytes@.len() - i,
        {
            if self.bytes[i] != other.bytes[i] {
                return false;
            }
            i = i + 1;
        }
        assert(self.bytes@ =~= other.bytes@);
        true
    }
}

/// A target must be rewritten unless it exists, was read, and has the body's digest.
pub open spec fn placement_needed(current: Option<Seq<u8>>, body: Seq<u8>) -> bool {
    match current {
        Some(c) => sha256_of(c) != sha256_of(body),
        None => true,
    }
}

/// Whether a target whose current contents are `current` (`None` when it is missing or
/// unreadable) must be rewritten with `body`.
pub fn needs_placement(current: Option<&[u8]>, body: &[u8]) -> (r: bool)
    ensures
        r == placement_needed(
            match current {
                Some(c) => Some(c@),
                None => None,
            },
            body@,
        ),
{
    match current {
        Some(c) => {
            let current_digest = Digest::for_bytes(c);
            let updated_digest = Digest::for_bytes(body);
            !current_digest.same_as(&updated_digest)
        },
        None => true,
    }
}

/// The next step of placing a target.
#[derive(Clone, Copy, Debug, PartialEq, Eq, Structural)]
pub enum PlaceAction {
    /// Write the body to the temporary file, with the target's mode and owner.
    WriteTemp,
    /// Run a before-hook on the temporary file.
    RunBeforeHook { index: usize },
    /// Remove the temporary file (a before-hook failed).
    RemoveTemp,
    /// Rename the temporary file over the target.
    Rename,
    /// Run an after-hook on the target.
    RunAfterHook { index: usize },
    /// Nothing left to do: placed, or already up to date.
    Done,
    /// The placement stopped on an error.
    Failed,
}

/// The progress of placing one target.
pub struct Placement {
    /// Number of before-hooks.
    pub before_hooks: usize,
    /// Number of after-hooks.
    pub after_hooks: usize,
    /// What to do next.
    pub next: PlaceAction,
}

/// The step after `a` succeeds (`ok`) or fails.
pub open spec fn next_action(a: PlaceAction, ok: bool, before: usize, after: usize) -> PlaceAction {
    match a {
        PlaceAction::WriteTemp => if !ok {
            PlaceAction::Failed
        } else if before > 0 {
            PlaceAction::RunBeforeHook { index: 0 }
        } else {
            PlaceAction::Rename
        },
        PlaceAction::RunBeforeHook { index } => if !ok {
            PlaceAction::RemoveTemp
        } else if index + 1 < before {
            PlaceAction::RunBeforeHook { index: (index + 1) as usize }
        } else {
            PlaceAction::Rename
        },
        PlaceAction::RemoveTemp => PlaceAction::Failed,
        PlaceAction::Rename => if !ok {
            PlaceAction::Failed
        } else if after > 0 {
            PlaceAction::RunAfterHook { index: 0 }
        } else {
            PlaceAction::Done
        },
        PlaceAction::RunAfterHook { index } => if !ok {
            PlaceAction::Failed
        } else if index + 1 < after {
            PlaceAction::RunAfterHook { index: (index + 1) as usize }
        } else {
            PlaceAction::Done
        },
        PlaceAction::Done => PlaceAction::Done,
        PlaceAction::Failed => PlaceAction::Failed,
    }
}

impl Placement {
    /// Hook indices stay within the hook lists.
    pub open spec fn wf(&self) -> bool {
        match self.next {
            PlaceAction::RunBeforeHook { index } => index < self.before_hooks,
            PlaceAction::RunAfterHook { index } => index < self.after_hooks,
            _ => true,
        }
    }

    /// Begin placing `body` over a target whose contents are `current`: nothing to do when
    /// they already match, else write the temporary file first.
    pub fn start(current: Option<&[u8]>, body: &[u8], before_hooks: usize, after_hooks: usize) -> (r: Placement)
        ensures
            r.wf(),
            r.before_hooks == before_hooks,
            r.after_hooks == after_hooks,
            r.next == if placement_needed(
                match current {
                    Some(c) => Some(c@),
                    None => None,
                },
                body@,
            ) {
                PlaceAction::WriteTemp
            } else {
                PlaceAction::Done
            },
    {
        let next = if needs_placement(current, body) {
            PlaceAction::WriteTemp
        } else {
            PlaceAction::Done
        };
        Placement { before_hooks, after_hooks, next }
    }

    /// Record whether the step in `next` succeeded, and move to the step after it.
    pub fn advance(&mut self, succeeded: bool)
        requires
            old(self).wf(),
        ensures
            final(self).wf(),
            final(self).before_hooks == old(self).before_hooks,
            final(self).after_hooks == old(self).after_hooks,
            final(self).next == next_action(old(self).next, succeeded, old(self).before_hooks, old(self).after_hooks),
    {
        self.next = match self.next {
            PlaceAction::WriteTemp => if !succeeded {
                PlaceAction::Failed
            } else if self.before_hooks > 0 {
                PlaceAction::RunBeforeHook { index: 0 }
            } else {
                PlaceAction::Rename
            },
            PlaceAction::RunBeforeHook { index } => if !succeeded {
                PlaceAction::RemoveTemp
            } else if index + 1 < self.before_hooks {
                PlaceAction::RunBeforeHook { index: index + 1 }
            } else {
                PlaceAction::Rename
            },
            PlaceAction::RemoveTemp => PlaceAction::Failed,
            PlaceAction::Rename => if !succeeded {
                PlaceAction::Failed
            } else if self.after_hooks > 0 {
                PlaceAction::RunAfterHook { index: 0 }
            } else {
                PlaceAction::Done
            },
            PlaceAction::RunAfterHook { index } => if !succeeded {
                PlaceAction::Failed
            } else if index + 1 < self.after_hooks {
                PlaceAction::RunAfterHook { index: index + 1 }
            } else {
                PlaceAction::Done
            },
            PlaceAction::Done => PlaceAction::Done,
            PlaceAction::Failed => PlaceAction::Failed,
        };
    }

    /// The placement has finished, one way or the other.
    pub fn is_finished(&self) -> (r: bool)
        ensures
            r == (self.next == PlaceAction::Done || self.next == PlaceAction::Failed),
    {
        match self.next {
            PlaceAction::Done | PlaceAction::Failed => true,
            _ => false,
        }
    }
}

/// A target whose contents already equal the body is left alone: placing the same body a
/// second time, after a first placement wrote it, writes nothing and runs no hook.
pub proof fn lemma_placement_idempotent(body: Seq<u8>)
    ensures
        !placement_needed(Some(body), body),
{
}

// ---------------------------------------------------------------------------
// Hooks
/// A command run before or after placing a target.
#[derive(Clone, Debug, PartialEq, Eq)]
pub struct Hook {
    /// Canonical path of the command.
    pub path: String,
    /// User ID to run it as.
    pub uid: u32,
    /// Group ID to run it as.
    pub gid: u32,
    /// Arguments; `%f` stands for the file's path.
    pub args: Vec<String>,
}

/// One argument as passed: the placeholder becomes the file's path.
pub open spec fn substituted(arg: Seq<char>, file_path: Seq<char>) -> Seq<char> {
    if arg == FILENAME_PLACEHOLDER@ {
        file_path
    } else {
        arg
    }
}

/// What a hook's exit means: success on exit code 0, a hook error on any other code or
/// on termination by a signal (no code).
pub fn hook_status(code: Option<i32>) -> (r: Result<(), Error>)
    ensures
        r is Ok <==> code == Some(0i32),
        r matches Err(e) ==> e is Hook,
{
    match code {
        Some(0) => Ok(()),
        Some(_) => Err(Error::Hook { description: "exited with non-zero error code".to_owned() }),
        None => Err(Error::Hook { description: "killed by signal".to_owned() }),
    }
}

impl Hook {
    /// A hook from its configured path, which must equal its canonical form, and the
    /// resolved user and group IDs.
    pub fn new(path: &str, canonical_path: &str, uid: u32, gid: u32, args: Option<Vec<String>>) -> (r: Result<Hook, Error>)
        ensures
            path@ == canonical_path@ <==> r is Ok,
            r matches Ok(h) ==> h.path@ == path@ && h.uid == uid && h.gid == gid
                && h.args@ == match args {
                    Some(a) => a@,
                    None => Seq::empty(),
                },
            r matches Err(e) ==> e is Config,
    {
        if path.to_owned() != canonical_path.to_owned() {
            return Err(Error::Config { description: "non-canonical path".to_owned() });
        }
        let args = match args {
            Some(a) => a,
            None => Vec::new(),
        };
        Ok(Hook { path: path.to_owned(), uid, gid, args })
    }

    /// The arguments to run the hook with, the placeholder replaced by `file_path`.
    pub fn arguments(&self, file_path: &str) -> (r: Vec<String>)
        ensures
            r@.len() == self.args@.len(),
            forall|i: int| 0 <= i < r@.len() ==> (#[trigger] r@[i])@ == substituted(self.args@[i]@, file_path@),
    {
        let placeholder = FILENAME_PLACEHOLDER.to_owned();
        let mut r: Vec<String> = Vec::new();
        let mut i: usize = 0;
        while i < self.args.len()
            invariant
                i <= self.args@.len(),
                placeholder@ == FILENAME_PLACEHOLDER@,
                r@.len() == i,
                forall|j: int| 0 <= j < i ==> (#[trigger] r@[j])@ == substituted(self.args@[j]@, file_path@),
            decreases self.args@.len() - i,
        {
            if self.args[i] == placeholder {
                r.push(file_path.to_owned());
            } else {
                r.push(self.args[i].clone());
            }
            i = i + 1;
        }
        r
    }
}

// ---------------------------------------------------------------------------
// Targets
/// A file to keep in sync with a named pack.
pub struct TargetFile {
    /// Canonical path of the file.
    pub path: String,
    /// Name of the pack the file belongs to.
    pub pack: String,
    /// Owner's user ID.
    pub uid: u32,
    /// Owner's group ID.
    pub gid: u32,
    /// Permission bits.
    pub mode: u32,
    /// Hooks run, in order, on the temporary file before it replaces the target.
    pub before_hooks: Vec<Hook>,
    /// Hooks run, in order, on the target after it was replaced.
    pub after_hooks: Vec<Hook>,
}

/// An octal digit's value.
pub open spec fn octal_value(c: char) -> nat {
    (c as nat - '0' as nat) as nat
}

/// The value of octal digits, most significant first.
pub open spec fn octal_digits_value(s: Seq<char>) -> nat
    decreases s.len(),
{
    if s.len() == 0 {
        0
    } else {
        octal_digits_value(s.drop_last()) * 8 + octal_value(s.last())
    }
}

/// All characters are octal digits.
pub open spec fn all_octal(s: Seq<char>) -> bool {
    forall|i: int| 0 <= i < s.len() ==> '0' <= #[trigger] s[i] <= '7'
}

/// What octal parsing of a mode gives: an optional `+`, then one or more octal digits,
/// with a value that fits 32 bits.
pub open spec fn parsed_mode(s: Seq<char>) -> Option<u32> {
    let digits = if s.len() > 0 && s[0] == '+' {
        s.subrange(1, s.len() as int)
    } else {
        s
    };
    if digits.len() > 0 && all_octal(digits) && octal_digits_value(digits) <= u32::MAX {
        Some(octal_digits_value(digits) as u32)
    } else {
        None
    }
}

/// Parse a mode written in octal.
pub fn parse_mode(s: &str) -> (r: Option<u32>)
    ensures
        r == parsed_mode(s@),
{
    let n = s.unicode_len();
    let mut i: usize = 0;
    if n > 0 && s.get_char(0) == '+' {
        i = 1;
    }
    let start = i;
    let ghost digits = s@.subrange(start as int, n as int);
    assert(digits == if s@.len() > 0 && s@[0] == '+' { s@.subrange(1, s@.len() as int) } else { s@ }) by {
        if !(s@.len() > 0 && s@[0] == '+') {
            assert(s@.subrange(0, n as int) =~= s@);
        }
    }
    if start == n {
        return None;
    }
    let mut value: u64 = 0;
    while i < n
        invariant
            start <= i <= n == s@.len(),
            start < n,
            digits == s@.subrange(start as int, n as int),
            digits == if s@.len() > 0 && s@[0] == '+' { s@.subrange(1, s@.len() as int) } else { s@ },
            all_octal(s@.subrange(start as int, i as int)),
            value as nat == octal_digits_value(s@.subrange(start as int, i as int)),
            value <= u32::MAX,
        decreases n - i,
    {
        let c = s.get_char(i);
        let ghost prev = s@.subrange(start as int, i as int);
        let ghost next = s@.subrange(start as int, i + 1);
        assert(next.drop_last() =~= prev);
        if !('0' <= c && c <= '7') {
            assert(!all_octal(digits)) by {
                assert(digits[i - start] == c);
            }
            return None;
        }
        value = value * 8 + (c as u64 - '0' as u64);
        if value > u32::MAX as u64 {
            proof {
                if all_octal(digits) {
                    assert(digits.subrange(0, i + 1 - start) =~= next);
                    lemma_octal_grows(digits, (i + 1 - start) as int);
                }
            }
            return None;
        }
        i = i + 1;
        assert(all_octal(s@.subrange(start as int, i as int))) by {
            assert forall|q: int| 0 <= q < next.len() implies '0' <= #[trigger] next[q] <= '7' by {
                if q < prev.len() {
                    assert(next[q] == prev[q]);
                }
            }
        }
    }
    assert(s@.subrange(start as int, n as int) =~= digits);
    Some(value as u32)
}

proof fn lemma_octal_grows(s: Seq<char>, k: int)
    requires
        0 <= k <= s.len(),
        all_octal(s),
    ensures
        octal_digits_value(s.subrange(0, k)) <= octal_digits_value(s),
    decreases s.len() - k,
{
    if k < s.len() {
        lemma_octal_grows(s, k + 1);
        assert(s.subrange(0, k + 1).drop_last() =~= s.subrange(0, k));
    } else {
        assert(s.subrange(0, k) =~= s);
    }
}

/// The configured path is its own canonical form.
pub open spec fn target_accepted(path: Seq<char>, canonical: Seq<char>, mode: Seq<char>) -> bool {
    path == canonical && parsed_mode(mode) is Some
}

impl TargetFile {
    /// A target from its configured path (which must equal its canonical form), pack
    /// name, resolved owner, octal mode and hooks.
    pub fn new(
        path: &str,
        canonical_path: &str,
        pack: &str,
        uid: u32,
        gid: u32,
        mode: &str,
        before_hooks: Vec<Hook>,
        after_hooks: Vec<Hook>,
    ) -> (r: Result<TargetFile, Error>)
        ensures
            target_accepted(path@, canonical_path@, mode@) <==> r is Ok,
            r matches Ok(t) ==> t.path@ == path@ && t.pack@ == pack@ && t.uid == uid && t.gid == gid
                && Some(t.mode) == parsed_mode(mode@) && t.before_hooks@ == before_hooks@
                && t.after_hooks@ == after_hooks@,
            r matches Err(e) ==> e is Config,
    {
        if path.to_owned() != canonical_path.to_owned() {
            return Err(Error::Config { description: "non-canonical path".to_owned() });
        }
        let mode = match parse_mode(mode) {
            Some(m) => m,
            None => return Err(Error::Config { description: "bad mode".to_owned() }),
        };
        Ok(TargetFile { path: path.to_owned(), pack: pack.to_owned(), uid, gid, mode, before_hooks, after_hooks })
    }
}

/// The temporary file's path for a target: `.placer-tmp-` and the target's name, in the
/// target's directory.
pub open spec fn temp_path_of(path: Seq<char>, slash: int) -> Seq<char> {
    path.subrange(0, slash + 1) + PLACER_TEMPFILE_PREFIX@ + path.subrange(slash + 1, path.len() as int)
}

/// `slash` is the position of the last `/` in `path`.
pub open spec fn last_slash_at(path: Seq<char>, slash: int) -> bool {
    0 <= slash < path.len() && path[slash] == '/' && forall|j: int| slash < j < path.len() ==> path[j] != '/'
}

/// The path of the temporary file for a target path, which must contain a `/`.
pub fn temp_path(path: &str) -> (r: Option<String>)
    ensures
        match r {
            Some(t) => exists|k: int| last_slash_at(path@, k) && t@ == temp_path_of(path@, k),
            None => forall|j: int| 0 <= j < path@.len() ==> path@[j] != '/',
        },
{
    let n = path.unicode_len();
    let mut k: usize = n;
    while k > 0 && path.get_char(k - 1) != '/'
        invariant
            k <= n == path@.len(),
            forall|j: int| k <= j < n ==> path@[j] != '/',
        decreases k,
    {
        k = k - 1;
    }
    if k == 0 {
        return None;
    }
    let slash = k - 1;
    let mut r = path.substring_char(0, k).to_owned();
    let prefix = PLACER_TEMPFILE_PREFIX.to_owned();
    let mut i: usize = 0;
    let ghost base = r@;
    proof {
        reveal_strlit(".placer-tmp-");
    }
    let plen = PLACER_TEMPFILE_PREFIX.unicode_len();
    while i < plen
        invariant
            i <= plen == PLACER_TEMPFILE_PREFIX@.len(),
            r@ == base + PLACER_TEMPFILE_PREFIX@.subrange(0, i as int),
        decreases plen - i,
    {
        push_char(&mut r, PLACER_TEMPFILE_PREFIX.get_char(i));
        i = i + 1;
        assert(r@ =~= base + PLACER_TEMPFILE_PREFIX@.subrange(0, i as int));
    }
    assert(PLACER_TEMPFILE_PREFIX@.subrange(0, plen as int) =~= PLACER_TEMPFILE_PREFIX@);
    let ghost mid = r@;
    let mut j: usize = k;
    while j < n
        invariant
            k <= j <= n == path@.len(),
            r@ == mid + path@.subrange(k as int, j as int),
        decreases n - j,
    {
        push_char(&mut r, path.get_char(j));
        j = j + 1;
        assert(r@ =~= mid + path@.subrange(k as int, j as int));
    }
    assert(last_slash_at(path@, slash as int));
    assert(r@ =~= temp_path_of(path@, slash as int));
    Some(r)
}

// ---------------------------------------------------------------------------
// Routing
/// Where a file delivered in a pack goes.
#[derive(Clone, Copy, Debug, PartialEq, Eq, Structural)]
pub enum Route {
    /// No target is configured for the path.
    NoTarget,
    /// The target is configured for another pack: the file is ignored.
    OtherPack,
    /// The target at this position of the table receives the file.
    Place { index: usize },
}

/// Route a file with path `filename`, delivered in pack `pack_name`, through a table of
/// targets keyed by path.
pub fn route(targets: &Vec<(String, TargetFile)>, pack_name: &str, filename: &str) -> (r: Route)
    ensures
        match r {
            Route::NoTarget => forall|i: int| 0 <= i < targets@.len() ==> (#[trigger] targets@[i]).0@ != filename@,
            Route::OtherPack => exists|i: int| 0 <= i < targets@.len() && (#[trigger] targets@[i]).0@ == filename@
                && targets@[i].1.pack@ != pack_name@,
            Route::Place { index } => index < targets@.len() && targets@[index as int].0@ == filename@
                && targets@[index as int].1.pack@ == pack_name@,
        },
        (exists|i: int| 0 <= i < targets@.len() && (#[trigger] targets@[i]).0@ == filename@) ==> r != Route::NoTarget,
{
    match position(targets, filename) {
        None => Route::NoTarget,
        Some(i) => {
            if targets[i].1.pack == pack_name.to_owned() {
                Route::Place { index: i }
            } else {
                Route::OtherPack
            }
        },
    }
}

} // verus!
