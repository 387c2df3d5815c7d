//! Boot files: a store of them, the saved stack, and the history of boots.

use vstd::prelude::*;

use crate::ops::dispatch::CommitPoint;
use crate::table::TextTable;
use crate::digest;
use crate::table;
use crate::text;

verus! {

/// The id of a boot file: `b:` and the SHA-1 of its text.
pub open spec fn boot_key(text: Seq<char>) -> Seq<char> {
    "b:"@ + digest::sha1_text(text::utf8(text))
}

/// The id of a boot file.
pub fn boot_cid(text: &str) -> (cid: String)
    ensures
        cid@ == boot_key(text@),
{
    let digest = digest::sha1_hex(text.as_bytes());
    text::concat2("b:", digest.as_str())
}

/// The script of a store without boot files: an empty machine.
pub const DEFAULT_BOOT: &'static str = "# default boot: an empty machine\n";

/// One boot in the history.
#[derive(Clone, Debug, PartialEq, Eq)]
pub struct BootRecord {
    pub boot: String,
    pub booted_at: String,
    pub state_top: Option<String>,
    pub fires: usize,
    pub reason: String,
}

/// The text of a saved state: the boot file, then the stack, one per line.
pub open spec fn state_text(boot: Seq<char>, stack: Seq<Seq<char>>) -> Seq<char> {
    text::joined(seq![boot] + stack, "\n"@)
}

/// The lines of a text without white space at their ends, empty ones left out.
pub open spec fn full_lines(lines: Seq<Seq<char>>) -> Seq<Seq<char>> {
    lines.map_values(|l: Seq<char>| text::trimmed(l)).filter(|l: Seq<char>| l.len() > 0)
}

/// What a text says as a saved state: the boot file on the first line, the stack on
/// the other lines that are not empty.
pub open spec fn state_of(text: Seq<char>) -> Option<(Seq<char>, Seq<Seq<char>>)> {
    let lines = text::pieces(text, '\n');
    if text::trimmed(lines[0]).len() == 0 {
        None
    } else {
        Some((text::trimmed(lines[0]), full_lines(lines.skip(1))))
    }
}

/// A word that survives being a line: not empty, without line breaks, and without
/// white space at its ends.
pub open spec fn line_word(s: Seq<char>) -> bool {
    s.len() > 0 && text::lacks(s, '\n') && text::trimmed(s) == s
}

/// A saved state is read as it was saved.
pub proof fn state_round_trip(boot: Seq<char>, stack: Seq<Seq<char>>)
    requires
        line_word(boot),
        forall|i: int| 0 <= i < stack.len() ==> line_word(#[trigger] stack[i]),
    ensures
        state_of(state_text(boot, stack)) == Some((boot, stack)),
{
    let parts = seq![boot] + stack;
    assert("\n"@ =~= seq!['\n']) by {
        reveal_strlit("\n");
    }
    assert forall|i: int| 0 <= i < parts.len() implies text::lacks(#[trigger] parts[i], '\n') by {
        if i > 0 {
            assert(parts[i] == stack[i - 1]);
        }
    }
    text::pieces_of_joined(parts, '\n');
    assert(parts.skip(1) =~= stack);
    assert(stack.map_values(|l: Seq<char>| text::trimmed(l)) =~= stack) by {
        assert forall|i: int| 0 <= i < stack.len() implies text::trimmed(#[trigger] stack[i]) == stack[i] by {
            assert(line_word(stack[i]));
        }
    }
    nothing_filtered(stack);
}

proof fn nothing_filtered(list: Seq<Seq<char>>)
    requires
        forall|i: int| 0 <= i < list.len() ==> (#[trigger] list[i]).len() > 0,
    ensures
        list.filter(|l: Seq<char>| l.len() > 0) == list,
    decreases list.len(),
{
    reveal(Seq::filter);
    if list.len() > 0 {
        nothing_filtered(list.drop_last());
        assert(list.drop_last().push(list.last()) =~= list);
    }
}

/// The text of a saved state.
pub fn save_text(boot: &str, stack: &Vec<String>) -> (text: String)
    ensures
        text@ == state_text(boot@, text::texts(stack@)),
{
    let mut parts: Vec<String> = Vec::new();
    parts.push(text::copy_str(boot));
    let mut more = text::copy_texts(stack);
    let ghost m = more@;
    parts.append(&mut more);
    proof {
        assert(text::texts(parts@) =~= seq![boot@] + text::texts(stack@)) by {
            assert(text::texts(m) == text::texts(stack@));
            assert(text::texts(parts@) =~= seq![boot@] + text::texts(m));
        }
    }
    text::join_texts(&parts, "\n")
}

/// Reads a saved state.
pub fn load_text(text: &str) -> (r: Option<(String, Vec<String>)>)
    ensures
        match r {
            Some(p) => state_of(text@) == Some((p.0@, text::texts(p.1@))),
            None => state_of(text@) is None,
        },
{
    let chars = text::chars_of(text);
    let lines = text::split_pieces(chars.as_slice(), '\n');
    let ghost all = text::pieces(text@, '\n');
    proof {
        assert(text::word_views(lines@).len() == lines@.len());
    }
    let first = text::trim(lines[0].as_slice());
    if first.len() == 0 {
        return None;
    }
    let boot = text::string_of(first);
    let mut stack: Vec<String> = Vec::new();
    let mut i: usize = 1;
    let ghost rest = all.skip(1);
    proof {
        reveal(Seq::filter);
        assert(text::texts(stack@) =~= full_lines(rest.take(0)));
    }
    while i < lines.len()
        invariant
            1 <= i <= lines@.len(),
            all == text::pieces(text@, '\n'),
            rest == all.skip(1),
            all.len() == lines@.len(),
            forall|j: int| 0 <= j < lines@.len() ==> #[trigger] lines@[j]@ == all[j],
            text::texts(stack@) == full_lines(rest.take(i - 1)),
        decreases lines.len() - i,
    {
        let line = text::trim(lines[i].as_slice());
        proof {
            reveal(Seq::filter);
            let f = |l: Seq<char>| text::trimmed(l);
            let shorter = rest.take(i - 1);
            let longer = rest.take(i as int);
            assert(longer.map_values(f).drop_last() =~= shorter.map_values(f));
            assert(longer.map_values(f).last() == line@);
        }
        if line.len() > 0 {
            let word = text::string_of(line);
            proof {
                text::texts_push(stack@, word);
            }
            stack.push(word);
        }
        i = i + 1;
    }
    proof {
        assert(rest.take(i - 1) =~= rest);
    }
    Some((boot, stack))
}

/// The files of a boot store: boot files by id, the pointers to the current one,
/// the saved state, and the history.
#[derive(Clone, Debug, PartialEq, Eq)]
pub struct BootStore {
    pub dir: String,
    pub blobs: TextTable<String>,
    pub latest: Option<String>,
    pub fallback: Option<String>,
    pub state: Option<String>,
    pub log: Vec<BootRecord>,
}

/// A pointer that names a boot file that is there.
pub open spec fn pointed(blobs: Map<Seq<char>, Seq<char>>, pointer: Option<String>) -> Option<Seq<char>> {
    match pointer {
        Some(text) => if text::trimmed(text@).len() > 0 && blobs.dom().contains(text::trimmed(text@)) {
            Some(text::trimmed(text@))
        } else {
            None
        },
        None => None,
    }
}

/// The place of the latest record, among the first `n`, of another boot file that
/// is there; none is `-1`.
pub open spec fn previous_boot(
    log: Seq<BootRecord>,
    n: nat,
    current: Seq<char>,
    blobs: Map<Seq<char>, Seq<char>>,
) -> int
    decreases n,
{
    if n == 0 {
        -1
    } else if log[n - 1].boot@ != current && blobs.dom().contains(log[n - 1].boot@) {
        n - 1
    } else {
        previous_boot(log, (n - 1) as nat, current, blobs)
    }
}

impl BootStore {
    pub open spec fn wf(&self) -> bool {
        self.blobs.wf()
    }

    /// The boot files by id.
    pub open spec fn files(&self) -> Map<Seq<char>, Seq<char>> {
        table::text_view(self.blobs@)
    }

    /// The id of the current boot file: the one the pointer `latest` names, else the
    /// one the older pointer names.
    pub open spec fn current(&self) -> Option<Seq<char>> {
        if pointed(self.files(), self.latest) is Some {
            pointed(self.files(), self.latest)
        } else {
            pointed(self.files(), self.fallback)
        }
    }

    /// Everything but the pointer `latest` is as in the other store.
    pub open spec fn same_but_latest(&self, other: &BootStore) -> bool {
        self.dir == other.dir && self.blobs == other.blobs && self.fallback == other.fallback && self.state == other.state
            && self.log == other.log
    }

    /// An empty store for a directory.
    pub fn new(dir: &str) -> (s: BootStore)
        ensures
            s.wf(),
            s.dir@ == dir@,
            s.files() == Map::<Seq<char>, Seq<char>>::empty(),
            s.latest is None,
            s.fallback is None,
            s.state is None,
            s.log@.len() == 0,
    {
        let s = BootStore {
            dir: text::copy_str(dir),
            blobs: TextTable::new(),
            latest: None,
            fallback: None,
            state: None,
            log: Vec::new(),
        };
        proof {
            assert(s.files() =~= Map::<Seq<char>, Seq<char>>::empty());
        }
        s
    }

    pub fn dir(&self) -> (d: &str)
        ensures
            d@ == self.dir@,
    {
        self.dir.as_str()
    }

    /// Puts a boot file in; its id.
    pub fn put_boot(&mut self, text: &str) -> (cid: String)
        requires
            old(self).wf(),
        ensures
            final(self).wf(),
            cid@ == boot_key(text@),
            final(self).files() == old(self).files().insert(boot_key(text@), text@),
            final(self).dir == old(self).dir,
            final(self).latest == old(self).latest,
            final(self).fallback == old(self).fallback,
            final(self).state == old(self).state,
            final(self).log == old(self).log,
    {
        let ghost before = self.files();
        let cid = boot_cid(text);
        let copy = text::copy_str(text);
        self.blobs.insert(cid.clone(), copy);
        proof {
            assert(self.files() =~= before.insert(boot_key(text@), text@));
        }
        cid
    }

    /// Whether a boot file is there.
    pub fn has_boot(&self, cid: &str) -> (yes: bool)
        requires
            self.wf(),
        ensures
            yes == self.files().dom().contains(cid@),
    {
        self.blobs.contains(cid)
    }

    /// Makes a boot file the current one. Fails where it is not there.
    pub fn set_latest(&mut self, cid: &str) -> (r: Result<(), String>)
        requires
            old(self).wf(),
        ensures
            final(self).wf(),
            final(self).same_but_latest(old(self)),
            match r {
                Ok(_) => old(self).files().dom().contains(cid@) && final(self).latest is Some && final(self).latest->0@
                    == cid@,
                Err(m) => !old(self).files().dom().contains(cid@) && final(self).latest == old(self).latest && m@
                    == "no boot blob for "@ + cid@,
            },
    {
        if !self.has_boot(cid) {
            return Err(text::concat2("no boot blob for ", cid));
        }
        self.latest = Some(text::copy_str(cid));
        Ok(())
    }

    /// Makes a boot file the current one.
    pub fn set_default(&mut self, cid: &str) -> (r: Result<(), String>)
        requires
            old(self).wf(),
        ensures
            final(self).wf(),
            final(self).same_but_latest(old(self)),
            match r {
                Ok(_) => old(self).files().dom().contains(cid@) && final(self).latest is Some && final(self).latest->0@
                    == cid@,
                Err(m) => !old(self).files().dom().contains(cid@) && final(self).latest == old(self).latest && m@
                    == "no boot blob for "@ + cid@,
            },
    {
        self.set_latest(cid)
    }

    /// Follows a pointer.
    fn follow(&self, pointer: &Option<String>) -> (cid: Option<String>)
        requires
            self.wf(),
        ensures
            match cid {
                Some(c) => pointed(self.files(), *pointer) == Some(c@),
                None => pointed(self.files(), *pointer) is None,
            },
    {
        match pointer {
            Some(text) => {
                let chars = text::chars_of(text.as_str());
                let name = text::string_of(text::trim(chars.as_slice()));
                let some = text::trim(chars.as_slice()).len() > 0;
                if some && self.has_boot(name.as_str()) {
                    Some(name)
                } else {
                    None
                }
            },
            None => None,
        }
    }

    /// The id of the current boot file.
    pub fn latest_cid(&self) -> (cid: Option<String>)
        requires
            self.wf(),
        ensures
            match cid {
                Some(c) => self.current() == Some(c@),
                None => self.current() is None,
            },
    {
        match self.follow(&self.latest) {
            Some(c) => Some(c),
            None => self.follow(&self.fallback),
        }
    }

    /// The id of the current boot file.
    pub fn default_cid(&self) -> (cid: Option<String>)
        requires
            self.wf(),
        ensures
            match cid {
                Some(c) => self.current() == Some(c@),
                None => self.current() is None,
            },
    {
        self.latest_cid()
    }

    /// The text of the current boot file.
    pub fn default_boot(&self) -> (text: Option<String>)
        requires
            self.wf(),
        ensures
            match text {
                Some(t) => self.current() is Some && t@ == self.files()[self.current()->0],
                None => self.current() is None,
            },
    {
        match self.latest_cid() {
            Some(cid) => match self.blobs.get(cid.as_str()) {
                Some(t) => Some(t.clone()),
                None => None,
            },
            None => None,
        }
    }

    /// What the machine boots from, an id and a script: the current boot file, or the
    /// empty machine where there is none.
    pub fn startup(&self) -> (boot: (String, String))
        requires
            self.wf(),
        ensures
            match self.current() {
                Some(cid) => boot.0@ == cid && boot.1@ == self.files()[cid],
                None => boot.0@ == boot_key(DEFAULT_BOOT@) && boot.1@ == DEFAULT_BOOT@,
            },
    {
        match (self.latest_cid(), self.default_boot()) {
            (Some(cid), Some(script)) => (cid, script),
            _ => (boot_cid(DEFAULT_BOOT), text::copy_str(DEFAULT_BOOT)),
        }
    }

    /// The ids of the boot files in order, each with whether it is the current one.
    pub fn list_boots(&self) -> (list: Vec<(String, bool)>)
        requires
            self.wf(),
        ensures
            list@.len() == self.blobs.names().len(),
            forall|i: int|
                0 <= i < list@.len() ==> (#[trigger] list@[i]).0@ == self.blobs.names()[i] && list@[i].1 == (self.current()
                    == Some(self.blobs.names()[i])),
    {
        let current = self.latest_cid();
        let mut list: Vec<(String, bool)> = Vec::new();
        let mut i: usize = 0;
        while i < self.blobs.len()
            invariant
                self.wf(),
                i <= self.blobs.names().len(),
                match current {
                    Some(c) => self.current() == Some(c@),
                    None => self.current() is None,
                },
                list@.len() == i,
                forall|j: int|
                    0 <= j < i ==> (#[trigger] list@[j]).0@ == self.blobs.names()[j] && list@[j].1 == (self.current() == Some(
                        self.blobs.names()[j],
                    )),
            decreases self.blobs.names().len() - i,
        {
            let name = text::copy_str(self.blobs.at(i).0.as_str());
            let chosen = match &current {
                Some(c) => text::same_text(c.as_str(), name.as_str()),
                None => false,
            };
            list.push((name, chosen));
            i = i + 1;
        }
        list
    }

    /// Saves a stack for a boot file.
    pub fn save_state(&mut self, boot: &str, stack: &Vec<String>)
        requires
            old(self).wf(),
        ensures
            final(self).wf(),
            final(self).dir == old(self).dir,
            final(self).blobs == old(self).blobs,
            final(self).latest == old(self).latest,
            final(self).fallback == old(self).fallback,
            final(self).log == old(self).log,
            final(self).state is Some,
            final(self).state->0@ == state_text(boot@, text::texts(stack@)),
    {
        self.state = Some(save_text(boot, stack));
    }

    /// The saved stack, with its boot file.
    pub fn load_state(&self) -> (r: Option<(String, Vec<String>)>)
        ensures
            match r {
                Some(p) => self.state is Some && state_of(self.state->0@) == Some((p.0@, text::texts(p.1@))),
                None => self.state is None || state_of(self.state->0@) is None,
            },
    {
        match &self.state {
            Some(text) => load_text(text.as_str()),
            None => None,
        }
    }

    /// Adds a record to the history.
    pub fn log_boot(&mut self, record: BootRecord)
        requires
            old(self).wf(),
        ensures
            final(self).wf(),
            final(self).dir == old(self).dir,
            final(self).blobs == old(self).blobs,
            final(self).latest == old(self).latest,
            final(self).fallback == old(self).fallback,
            final(self).state == old(self).state,
            final(self).log@ == old(self).log@.push(record),
    {
        self.log.push(record);
    }

    /// The history.
    pub fn read_log(&self) -> (log: &Vec<BootRecord>)
        ensures
            log@ == self.log@,
    {
        &self.log
    }

    /// Goes back to a boot file.
    pub fn rollback(&mut self, cid: &str) -> (r: Result<(), String>)
        requires
            old(self).wf(),
        ensures
            final(self).wf(),
            final(self).same_but_latest(old(self)),
            match r {
                Ok(_) => old(self).files().dom().contains(cid@) && final(self).latest is Some && final(self).latest->0@
                    == cid@,
                Err(m) => !old(self).files().dom().contains(cid@) && final(self).latest == old(self).latest && m@
                    == "no boot blob for "@ + cid@,
            },
    {
        self.set_latest(cid)
    }

    /// Goes back to the latest boot file in the history that is not the current one
    /// and is still there.
    pub fn rollback_previous(&mut self) -> (cid: Option<String>)
        requires
            old(self).wf(),
        ensures
            final(self).wf(),
            final(self).same_but_latest(old(self)),
            ({
                let at = previous_boot(old(self).log@, old(self).log@.len(), old(self).current()->0, old(self).files());
                match cid {
                    Some(c) => old(self).current() is Some && at >= 0 && c@ == old(self).log@[at].boot@ && final(self).latest is Some && final(self).latest->0@ == c@,
                    None => final(self).latest == old(self).latest && (old(self).current() is None || at < 0),
                }
            }),
    {
        let current = match self.latest_cid() {
            Some(c) => c,
            None => {
                return None;
            },
        };
        let mut n: usize = self.log.len();
        while n > 0
            invariant
                n <= self.log@.len(),
                self.wf(),
                *self == *old(self),
                old(self).current() == Some(current@),
                previous_boot(self.log@, self.log@.len(), current@, self.files()) == previous_boot(
                    self.log@,
                    n as nat,
                    current@,
                    self.files(),
                ),
            decreases n,
        {
            let boot = self.log[n - 1].boot.clone();
            if !text::same_text(boot.as_str(), current.as_str()) && self.has_boot(boot.as_str()) {
                self.latest = Some(boot.clone());
                return Some(boot);
            }
            n = n - 1;
        }
        None
    }
}

/// A boot file that was made current is the current one, where its id is a line
/// word; a rollback to it undoes the switch to another.
pub proof fn latest_law(blobs: Map<Seq<char>, Seq<char>>, pointer: String)
    requires
        blobs.dom().contains(pointer@),
        line_word(pointer@),
    ensures
        pointed(blobs, Some(pointer)) == Some(pointer@),
{
}

/// The stack a boot starts from: the saved one where it belongs to the boot file,
/// else the one of the script.
pub fn seed_stack(saved: Option<(String, Vec<String>)>, boot: &str, script: &Vec<String>) -> (stack: Vec<String>)
    ensures
        text::texts(stack@) == (match saved {
            Some(p) => if p.0@ == boot@ {
                text::texts(p.1@)
            } else {
                text::texts(script@)
            },
            None => text::texts(script@),
        }),
        saved is None || (saved->0).0@ != boot@ ==> text::texts(stack@) == text::texts(script@),
        saved is Some && (saved->0).0@ == boot@ ==> text::texts(stack@) == text::texts((saved->0).1@),
{
    match saved {
        Some(p) => {
            if text::same_text(p.0.as_str(), boot) {
                return p.1;
            }
            text::copy_texts(script)
        },
        None => text::copy_texts(script),
    }
}

/// The budget of a boot: the larger of the two given, without limit where both
/// are zero.
pub fn fire_budget(asked: usize, scripted: usize) -> (n: usize)
    ensures
        n == (if asked == 0 && scripted == 0 {
            usize::MAX
        } else if asked >= scripted {
            asked
        } else {
            scripted
        }),
        asked <= n && scripted <= n,
        asked > 0 || scripted > 0 ==> n == asked || n == scripted,
        asked == 0 && scripted == 0 ==> n == usize::MAX,
{
    if asked == 0 && scripted == 0 {
        usize::MAX
    } else if asked >= scripted {
        asked
    } else {
        scripted
    }
}

/// The stack a boot leaves: what it produced, or what it started from where it
/// produced nothing.
pub fn next_stack(produced: &Vec<String>, seed: &Vec<String>) -> (stack: Vec<String>)
    ensures
        text::texts(stack@) == (if produced@.len() == 0 {
            text::texts(seed@)
        } else {
            text::texts(produced@)
        }),
        produced@.len() > 0 ==> text::texts(stack@) == text::texts(produced@),
        seed@.len() > 0 ==> stack@.len() > 0,
{
    if produced.len() == 0 {
        text::copy_texts(seed)
    } else {
        text::copy_texts(produced)
    }
}

/// The record of a boot that left a stack behind.
pub fn boot_record(boot: &str, booted_at: &str, stack: &Vec<String>, point: &CommitPoint) -> (r: BootRecord)
    ensures
        r.boot@ == boot@,
        r.booted_at@ == booted_at@,
        match r.state_top {
            Some(top) => stack@.len() > 0 && top@ == stack@.last()@,
            None => stack@.len() == 0,
        },
        r.fires == point.fired,
        r.reason@ == point.reason.title(),
{
    BootRecord {
        boot: text::copy_str(boot),
        booted_at: text::copy_str(booted_at),
        state_top: if stack.len() == 0 {
            None
        } else {
            Some(text::copy_str(stack[stack.len() - 1].as_str()))
        },
        fires: point.fired,
        reason: text::copy_str(point.reason.name()),
    }
}

/// The boot before the current one is the last in the log that is another and whose
/// file is there; there is none exactly where no record is such.
pub proof fn previous_boot_law(log: Seq<BootRecord>, n: nat, current: Seq<char>, blobs: Map<Seq<char>, Seq<char>>)
    requires
        n <= log.len(),
    ensures
        ({
            let k = previous_boot(log, n, current, blobs);
            &&& -1 <= k < n
            &&& k >= 0 ==> log[k].boot@ != current && blobs.dom().contains(log[k].boot@)
            &&& forall|j: int|
                k < j < n ==> (#[trigger] log[j]).boot@ == current || !blobs.dom().contains(log[j].boot@)
        }),
    decreases n,
{
    if n > 0 && !(log[n - 1].boot@ != current && blobs.dom().contains(log[n - 1].boot@)) {
        previous_boot_law(log, (n - 1) as nat, current, blobs);
    }
}

} // verus!
