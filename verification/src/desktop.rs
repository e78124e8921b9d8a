//! The state of the desktop window: its three input fields, its log, the decision that
//! starts a run (field check, key, operation, log line), the line that reports how a run
//! ended, and the tone a log line is shown in. Drawing and the file operations of a run
//! are not part of this library.
use vstd::prelude::*;
use vstd::utf8::encode_utf8;
use vstd::string::StringSliceAdditionalSpecFns;
use crate::cipher::{fractal_mirror_hash, mirror_hash_of};
use crate::codec::CodecCore;

verus! {

/// The operation that a run performs.
#[derive(Debug, Clone, Copy, PartialEq, Eq)]
pub enum CodecRun {
    /// Pack the input file into a container.
    Compress,
    /// Unpack the input container.
    Decompress,
}

/// The operation that `mode` selects: `compress` packs, any other mode unpacks.
pub open spec fn run_for(mode: Seq<char>) -> CodecRun {
    if mode == "compress"@ {
        CodecRun::Compress
    } else {
        CodecRun::Decompress
    }
}

/// Input path, output path, password and log lines of the desktop window.
pub struct ObscuraApp {
    pub input_path: String,
    pub output_path: String,
    pub password: String,
    pub logs: Vec<String>,
}

impl Default for ObscuraApp {
    /// Empty fields and the start-up log line.
    fn default() -> (r: Self)
        ensures
            r.input_path@ == Seq::<char>::empty(),
            r.output_path@ == Seq::<char>::empty(),
            r.password@ == Seq::<char>::empty(),
            r.logs@.len() == 1,
            r.logs@[0]@ == "[SYSTEM] Obscura Engine initialized. Standing by."@,
    {
        let mut logs: Vec<String> = Vec::new();
        logs.push(String::from_str("[SYSTEM] Obscura Engine initialized. Standing by."));
        ObscuraApp { input_path: String::new(), output_path: String::new(), password: String::new(), logs }
    }
}

impl ObscuraApp {
    /// Appends a log line.
    pub fn log(&mut self, msg: &str)
        ensures
            final(self).logs@.len() == old(self).logs@.len() + 1,
            final(self).logs@.take(old(self).logs@.len() as int) == old(self).logs@,
            final(self).logs@.last()@ == msg@,
            final(self).input_path == old(self).input_path,
            final(self).output_path == old(self).output_path,
            final(self).password == old(self).password,
    {
        self.logs.push(String::from_str(msg));
        assert(self.logs@.take(old(self).logs@.len() as int) =~= old(self).logs@);
    }

    /// Starts a run in `mode`: with an empty field it logs an error and gives nothing;
    /// else it logs the run and gives the codec keyed with the hash of the password (the
    /// key the command-line tool uses) and the operation
    /// that `mode` selects.
    pub fn execute_codec(&mut self, mode: &str) -> (r: Option<(CodecCore, CodecRun)>)
        ensures
            final(self).input_path == old(self).input_path,
            final(self).output_path == old(self).output_path,
            final(self).password == old(self).password,
            final(self).logs@.len() == old(self).logs@.len() + 1,
            final(self).logs@.take(old(self).logs@.len() as int) == old(self).logs@,
            if old(self).input_path@.len() == 0 || old(self).output_path@.len() == 0
                || old(self).password@.len() == 0 {
                &&& r is None
                &&& final(self).logs@.last()@ == "[ERROR] All fields must be filled."@
            } else {
                &&& r matches Some((core, run)) && core.wf() && core.key() == mirror_hash_of(
                    encode_utf8(old(self).password@),
                ) && run == run_for(mode@)
                &&& final(self).logs@.last()@ == "[SYSTEM] Executing "@ + mode@ + " path..."@
            },
    {
        if self.input_path.as_str().is_empty() || self.output_path.as_str().is_empty()
            || self.password.as_str().is_empty() {
            self.log("[ERROR] All fields must be filled.");
            return None;
        }
        let ktime = fractal_mirror_hash(self.password.as_str());
        let core = CodecCore::new(ktime);
        let mut msg = String::from_str("[SYSTEM] Executing ");
        msg.append(mode);
        msg.append(" path...");
        self.log(msg.as_str());
        let run = if mode.to_owned() == String::from_str("compress") {
            CodecRun::Compress
        } else {
            CodecRun::Decompress
        };
        Some((core, run))
    }

    /// Logs how a run in `mode` ended: `Ok` with the time it took, as text, or `Err` with
    /// the error's text.
    pub fn finish_codec(&mut self, mode: &str, outcome: Result<&str, &str>)
        ensures
            final(self).input_path == old(self).input_path,
            final(self).output_path == old(self).output_path,
            final(self).password == old(self).password,
            final(self).logs@.len() == old(self).logs@.len() + 1,
            final(self).logs@.take(old(self).logs@.len() as int) == old(self).logs@,
            final(self).logs@.last()@ == match outcome {
                Ok(took) => "[SUCCESS] Operation "@ + mode@ + " completed in "@ + took@,
                Err(e) => "[CRITICAL] Operation "@ + mode@ + " failed: "@ + e@,
            },
    {
        let msg = match outcome {
            Ok(took) => {
                let mut m = String::from_str("[SUCCESS] Operation ");
                m.append(mode);
                m.append(" completed in ");
                m.append(took);
                m
            },
            Err(e) => {
                let mut m = String::from_str("[CRITICAL] Operation ");
                m.append(mode);
                m.append(" failed: ");
                m.append(e);
                m
            },
        };
        self.log(msg.as_str());
    }
}

/// `needle` occurs in `hay`.
pub open spec fn occurs_in(needle: Seq<u8>, hay: Seq<u8>) -> bool {
    exists|i: int| 0 <= i && i + needle.len() <= hay.len() && #[trigger] hay.subrange(i, i + needle.len()) == needle
}

/// Whether `needle` occurs in `hay`.
fn contains_bytes(hay: &[u8], needle: &[u8]) -> (r: bool)
    ensures
        r == occurs_in(needle@, hay@),
{
    if needle.len() > hay.len() {
        return false;
    }
    let last = hay.len() - needle.len();
    let mut i: usize = 0;
    loop
        invariant
            needle@.len() <= hay@.len(),
            last == hay@.len() - needle@.len(),
            i <= last,
            forall|k: int| 0 <= k < i ==> #[trigger] hay@.subrange(k, k + needle@.len()) != needle@,
        decreases last - i,
    {
        let mut j: usize = 0;
        let mut same = true;
        while j < needle.len()
            invariant
                needle@.len() <= hay@.len(),
                hay@.len() == hay.len(),
                i <= last,
                last == hay@.len() - needle@.len(),
                j <= needle@.len(),
                same == (forall|t: int| 0 <= t < j ==> hay@[i + t] == needle@[t]),
            decreases needle@.len() - j,
        {
            if hay[i + j] != needle[j] {
                same = false;
            }
            j += 1;
        }
        if same {
            assert(hay@.subrange(i as int, i + needle@.len()) =~= needle@);
            return true;
        }
        proof {
            let t = choose|t: int| 0 <= t < needle@.len() && hay@[i + t] != needle@[t];
            assert(hay@.subrange(i as int, i + needle@.len())[t] != needle@[t]);
        }
        if i == last {
            return false;
        }
        i += 1;
    }
}

/// The tone a log line is shown in.
#[derive(Debug, Clone, Copy, PartialEq, Eq)]
pub enum LogTone {
    /// An error or a failed run.
    Alarm,
    /// A run that completed.
    Success,
    /// Anything else.
    Plain,
}

/// The tone of a log line: alarm when it holds `[ERROR]` or `[CRITICAL]`, else success
/// when it holds `[SUCCESS]`, else plain.
pub open spec fn tone_of(line: Seq<u8>) -> LogTone {
    if occurs_in("[ERROR]".spec_bytes(), line) || occurs_in("[CRITICAL]".spec_bytes(), line) {
        LogTone::Alarm
    } else if occurs_in("[SUCCESS]".spec_bytes(), line) {
        LogTone::Success
    } else {
        LogTone::Plain
    }
}

/// The tone that `line` is shown in.
pub fn log_tone(line: &str) -> (r: LogTone)
    ensures
        r == tone_of(line.spec_bytes()),
{
    let bytes = line.as_bytes();
    if contains_bytes(bytes, "[ERROR]".as_bytes()) || contains_bytes(bytes, "[CRITICAL]".as_bytes()) {
        LogTone::Alarm
    } else if contains_bytes(bytes, "[SUCCESS]".as_bytes()) {
        LogTone::Success
    } else {
        LogTone::Plain
    }
}

} // verus!
