//! Download of the model bundle: which files, from which hosts in which order,
//! and when a file is complete.

use crate::text;
use crate::text::{contains, decimal_text, join, same, to_ascii_lowercase, trim};
use vstd::prelude::*;
use vstd::string::*;

verus! {

/// The hosts, in the order in which they are tried.
pub const HOSTS: [&'static str; 3] = [
    "https://modelscope.cn/models/cgisky/Ai00-X/resolve/master",
    "https://hf-mirror.com/cgisky/ai00-x/resolve/main",
    "https://huggingface.co/cgisky/ai00-x/resolve/main",
];

/// The short name of a host.
pub open spec fn short_name(host: Seq<char>) -> Seq<char> {
    if text::occurs("modelscope"@, host) {
        "ms"@
    } else if text::occurs("hf-mirror"@, host) {
        "hf-mirror"@
    } else {
        "hf"@
    }
}

/// The short name of a host.
pub fn host_key(host: &str) -> (res: String)
    ensures
        res@ == short_name(host@),
{
    if contains(host, "modelscope") {
        "ms".to_owned()
    } else if contains(host, "hf-mirror") {
        "hf-mirror".to_owned()
    } else {
        "hf".to_owned()
    }
}

/// The files of the classifier.
pub open spec fn classifier_files() -> Seq<Seq<char>> {
    seq!["router-0.1B-int8.st"@, "vocab.json"@, "router_head.json"@]
}

/// The tier model that a wish for one stands for.
pub open spec fn tier_model(wish: Seq<char>) -> Option<Seq<char>> {
    if text::lowercased(wish) == "3b"@ {
        Some("rwkv7-3B-int8.st"@)
    } else if text::lowercased(wish) == "7b"@ {
        Some("rwkv7-7B-int8.st"@)
    } else {
        None
    }
}

/// The files to download: those of the classifier, and the tier model that is
/// wished for, if any. White space around the wish is left aside.
pub fn bundle(tier_models: Option<&str>) -> (res: Result<Vec<String>, String>)
    ensures
        match tier_models {
            None => res matches Ok(files) && text::contents(files@) == classifier_files(),
            Some(s) => {
                let wish = text::trimmed(s@);
                match tier_model(wish) {
                    Some(model) => res matches Ok(files) && text::contents(files@)
                        == classifier_files().push(model),
                    None => if wish.len() == 0 {
                        res matches Ok(files) && text::contents(files@) == classifier_files()
                    } else {
                        res matches Err(m) && m@ == "--tier-models expects '3b' or '7b', got '"@
                            + wish + "'"@
                    },
                }
            },
        },
{
    let mut files: Vec<String> = Vec::new();
    files.push("router-0.1B-int8.st".to_owned());
    files.push("vocab.json".to_owned());
    files.push("router_head.json".to_owned());
    assert(text::contents(files@) =~= classifier_files());
    if let Some(s) = tier_models {
        let wish = trim(s);
        let lower = to_ascii_lowercase(wish.as_str());
        let ghost before = files@;
        proof {
            reveal_strlit("3b");
            reveal_strlit("7b");
            assert(text::lowercased(wish@).len() == wish@.len());
        }
        if same(lower.as_str(), "3b") {
            files.push("rwkv7-3B-int8.st".to_owned());
            assert(text::contents(files@) =~= text::contents(before).push("rwkv7-3B-int8.st"@));
        } else if same(lower.as_str(), "7b") {
            files.push("rwkv7-7B-int8.st".to_owned());
            assert(text::contents(files@) =~= text::contents(before).push("rwkv7-7B-int8.st"@));
        } else if wish.as_str().unicode_len() > 0 {
            let mut m = "--tier-models expects '3b' or '7b', got '".to_owned();
            m.append(wish.as_str());
            m.append("'");
            return Err(m);
        }
    }
    Ok(files)
}

/// Whether a file that is there is kept: it is not empty.
pub fn keeps(length: Option<u64>) -> (res: bool)
    ensures
        res == (length matches Some(n) && n > 0),
{
    match length {
        Some(n) => n > 0,
        None => false,
    }
}

/// The name under which a file is written until it is complete.
pub fn part_name(file: &str) -> (res: String)
    ensures
        res@ == file@ + ".part"@,
{
    let mut name = file.to_owned();
    name.append(".part");
    name
}

/// Whether a download is complete: every byte was written, or, where the length
/// is not known, the stream ended without a fault. Some hosts drop the
/// connection right at the end of a file.
pub open spec fn is_complete(total: u64, written: u64, faulty: bool) -> bool {
    (total > 0 && written == total) || (total == 0 && !faulty)
}

/// Address of a file on a host.
pub open spec fn address(host: Seq<char>, file: Seq<char>) -> Seq<char> {
    host + "/rwkv/"@ + file
}

/// The download of one file from one host after the other.
#[derive(Debug)]
pub struct Download {
    file: String,
    tried: usize,
    last_err: String,
}

impl Download {
    /// The file.
    pub closed spec fn target(self) -> Seq<char> {
        self.file@
    }

    /// How many hosts were tried.
    pub closed spec fn attempts(self) -> int {
        self.tried as int
    }

    /// What went wrong last.
    pub closed spec fn fault(self) -> Seq<char> {
        self.last_err@
    }

    /// Starts before the first host.
    pub fn new(file: &str) -> (res: Self)
        ensures
            res.target() == file@,
            res.attempts() == 0,
            res.fault() == "no host succeeded"@,
    {
        Download { file: file.to_owned(), tried: 0, last_err: "no host succeeded".to_owned() }
    }

    /// Address to try next, while there is a host left.
    pub fn next_url(&self) -> (res: Option<String>)
        ensures
            self.attempts() < HOSTS@.len() ==> {
                &&& res matches Some(url)
                &&& url@ == address(HOSTS@[self.attempts()]@, self.target())
            },
            self.attempts() >= HOSTS@.len() ==> res is None,
    {
        if self.tried < HOSTS.len() {
            let mut url = HOSTS[self.tried].to_owned();
            url.append("/rwkv/");
            url.append(self.file.as_str());
            Some(url)
        } else {
            None
        }
    }

    /// Whether the host was tried in vain, and is not tried again.
    pub open spec fn passes_over(self, before: Self, fault: Seq<char>) -> bool {
        &&& self.target() == before.target()
        &&& self.attempts() == before.attempts() + 1
        &&& self.fault() == short_name(HOSTS@[before.attempts()]@) + " -> "@ + fault
    }

    /// Passes over the host.
    fn pass_over(&mut self, fault: &str)
        requires
            old(self).attempts() < HOSTS@.len(),
        ensures
            final(self).passes_over(*old(self), fault@),
    {
        let mut m = host_key(HOSTS[self.tried]);
        m.append(" -> ");
        m.append(fault);
        self.last_err = m;
        self.tried += 1;
    }

    /// The host answered with a status that is no success.
    pub fn refused(&mut self, status: &str)
        requires
            old(self).attempts() < HOSTS@.len(),
        ensures
            final(self).passes_over(*old(self), "HTTP "@ + status@),
    {
        let mut m = "HTTP ".to_owned();
        m.append(status);
        self.pass_over(m.as_str());
    }

    /// The host could not be asked.
    pub fn failed(&mut self, fault: &str)
        requires
            old(self).attempts() < HOSTS@.len(),
        ensures
            final(self).passes_over(*old(self), fault@),
    {
        self.pass_over(fault);
    }

    /// The host sent the file, or part of it; says whether it is complete.
    pub fn received(&mut self, total: u64, written: u64, fault: Option<&str>) -> (complete: bool)
        requires
            old(self).attempts() < HOSTS@.len(),
        ensures
            complete == is_complete(total, written, fault is Some),
            complete ==> *final(self) == *old(self),
            !complete ==> final(self).passes_over(
                *old(self),
                match fault {
                    Some(e) => e@,
                    None => "incomplete download ("@ + text::decimal(written as nat) + " bytes)"@,
                },
            ),
    {
        if (total > 0 && written == total) || (total == 0 && fault.is_none()) {
            return true;
        }
        match fault {
            Some(e) => {
                self.pass_over(e);
            },
            None => {
                let mut m = "incomplete download (".to_owned();
                m.append(decimal_text(written as u128).as_str());
                m.append(" bytes)");
                self.pass_over(m.as_str());
            },
        }
        false
    }

    /// What went wrong last.
    pub fn error(&self) -> (res: String)
        ensures
            res@ == self.fault(),
    {
        self.last_err.as_str().to_owned()
    }

    /// The short name of the host that is tried.
    pub fn host(&self) -> (res: String)
        requires
            self.attempts() < HOSTS@.len(),
        ensures
            res@ == short_name(HOSTS@[self.attempts()]@),
    {
        host_key(HOSTS[self.tried])
    }
}

/// What is said of a file that could not be downloaded.
pub fn failure_of(file: &str, fault: &str) -> (res: String)
    ensures
        res@ == file@ + ": "@ + fault@,
{
    let mut m = file.to_owned();
    m.append(": ");
    m.append(fault);
    m
}

/// How the download of the bundle ended, given what failed.
pub fn report(failures: &[String]) -> (res: Result<(), String>)
    ensures
        failures@.len() == 0 ==> res is Ok,
        failures@.len() > 0 ==> (res matches Err(m) && m@ == "some downloads failed:\n  - "@
            + text::joined(text::contents(failures@), "\n  - "@)
            + "\nhint: check connectivity (or re-run; completed files are skipped)"@),
{
    if failures.len() == 0 {
        return Ok(());
    }
    let mut m = "some downloads failed:\n  - ".to_owned();
    m.append(join(failures, "\n  - ").as_str());
    m.append("\nhint: check connectivity (or re-run; completed files are skipped)");
    Err(m)
}

/// A download is complete where every byte that was announced was written,
/// whatever came after; where nothing was announced, it has to end well.
pub proof fn announced_bytes_decide(total: u64, written: u64, faulty: bool)
    ensures
        total > 0 ==> (is_complete(total, written, faulty) <==> written == total),
        total == 0 ==> (is_complete(total, written, faulty) <==> !faulty),
{
}

/// The tier models go by their size, in any case, and no other wish has one.
pub proof fn tier_models_go_by_size(wish: Seq<char>)
    ensures
        text::lowercased(wish) == "3b"@ ==> tier_model(wish) == Some("rwkv7-3B-int8.st"@),
        text::lowercased(wish) == "7b"@ ==> tier_model(wish) == Some("rwkv7-7B-int8.st"@),
        tier_model(wish) is Some ==> text::lowercased(wish) == "3b"@ || text::lowercased(wish)
            == "7b"@,
{
    reveal_strlit("3b");
    reveal_strlit("7b");
    assert("3b"@[0] == '3' && "7b"@[0] == '7');
}

/// A file lies under the same name on every host, and each host that fails is
/// followed by the next one.
pub proof fn hosts_are_tried_in_turn(before: Download, after: Download, fault: Seq<char>)
    requires
        after.passes_over(before, fault),
        0 <= before.attempts() < HOSTS@.len(),
    ensures
        after.attempts() == before.attempts() + 1,
        after.target() == before.target(),
        text::ends(fault, after.fault()),
        text::starts(
            HOSTS@[before.attempts()]@,
            address(HOSTS@[before.attempts()]@, before.target()),
        ),
        text::ends(
            "/rwkv/"@ + before.target(),
            address(HOSTS@[before.attempts()]@, before.target()),
        ),
{
    let host = HOSTS@[before.attempts()]@;
    let at = address(host, before.target());
    let tail = "/rwkv/"@ + before.target();
    assert(at =~= host + tail);
    assert(at.take(host.len() as int) =~= host);
    assert(at.skip(at.len() - tail.len()) =~= tail);
    let said = after.fault();
    assert(said.skip(said.len() - fault.len()) =~= fault);
}

} // verus!
