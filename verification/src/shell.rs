//! Tiny line-oriented shell.
//!
//! `Shell::execute_line` takes a command line and returns the rendered
//! output: no I/O, nothing outside the shell's own state. The driver that
//! reads keys and shows the output lives outside the library; the line
//! editing it does is [`LineEditor`].

use vstd::prelude::*;
use crate::block::BlockDevice;
use crate::vfs::{Vfs, Mount, FsError, Change, MountedFs, lemma_same_answers};
use crate::path::{views, strings_view, chars_of, chars_eq, string_of, push_char, push_chars, push_str_chars,
    normalize, spec_normalize, canonical_prefix, trim_trailing_slashes};
use crate::fmt::{decimal, push_decimal};
use crate::names::{names_sorted, sort_names};
use vstd::utf8::{valid_utf8, decode_utf8, encode_utf8};

verus! {

/// The text of the `help` command.
pub const HELP_TEXT: &'static str = "willo shell — built-in commands:
  pwd                  print working directory
  ls [path]            list entries in path (or cwd)
  cd <path>            change directory
  cat <path>           print file contents
  echo <text>          echo arguments
  clear                clear the screen
  mount                show what is mounted at /
  uptime               show timer ticks since boot
  touch <path>         create empty file (or truncate)
  mkdir <path>         create directory
  rm <path>            delete file or empty directory
  write <path> <text>  overwrite file with text
  help                 show this help
";

/// What `execute_line` returns to ask the driver to clear the screen.
pub const CLEAR_SENTINEL: &'static str = "\x1bCLR";

// ---------------------------------------------------------------------------
// Words
// ---------------------------------------------------------------------------

/// ASCII whitespace: space, tab, line feed, form feed, carriage return.
pub open spec fn is_ascii_ws(c: char) -> bool {
    c == ' ' || c == '\t' || c == '\n' || c == '\x0C' || c == '\r'
}

/// Scan `s` left to right: the completed words so far, and the word still
/// being read.
pub open spec fn word_scan(s: Seq<char>) -> (Seq<Seq<char>>, Seq<char>)
    decreases s.len(),
{
    if s.len() == 0 {
        (Seq::empty(), Seq::empty())
    } else {
        let (done, cur) = word_scan(s.drop_last());
        if is_ascii_ws(s.last()) {
            if cur.len() > 0 {
                (done.push(cur), Seq::empty())
            } else {
                (done, Seq::empty())
            }
        } else {
            (done, cur.push(s.last()))
        }
    }
}

/// The non-empty runs of `s` between ASCII whitespace, in order.
pub open spec fn words(s: Seq<char>) -> Seq<Seq<char>> {
    let (done, cur) = word_scan(s);
    if cur.len() > 0 {
        done.push(cur)
    } else {
        done
    }
}

/// The words joined with single spaces.
pub open spec fn join_words(ws: Seq<Seq<char>>) -> Seq<char>
    decreases ws.len(),
{
    if ws.len() == 0 {
        Seq::empty()
    } else if ws.len() == 1 {
        ws[0]
    } else {
        join_words(ws.drop_last()) + seq![' '] + ws.last()
    }
}

fn is_ws(c: char) -> (r: bool)
    ensures
        r == is_ascii_ws(c),
{
    c == ' ' || c == '\t' || c == '\n' || c == '\x0C' || c == '\r'
}

/// The words of `s` (see [`words`]).
fn words_of(s: &[char]) -> (r: Vec<Vec<char>>)
    ensures
        views(r@) == words(s@),
{
    let mut done: Vec<Vec<char>> = Vec::new();
    let mut cur: Vec<char> = Vec::new();
    let mut i: usize = 0;
    while i < s.len()
        invariant
            i <= s@.len(),
            (views(done@), cur@) == word_scan(s@.take(i as int)),
        decreases s@.len() - i,
    {
        let c = s[i];
        proof {
            assert(s@.take(i + 1).drop_last() =~= s@.take(i as int));
            assert(s@.take(i + 1).last() == c);
        }
        let ghost old_done = views(done@);
        let ghost old_cur = cur@;
        if is_ws(c) {
            if cur.len() > 0 {
                let piece = cur;
                done.push(piece);
                assert(views(done@) =~= old_done.push(old_cur));
                cur = Vec::new();
            }
        } else {
            cur.push(c);
        }
        i = i + 1;
        assert(views(done@) =~= word_scan(s@.take(i as int)).0);
        assert(cur@ =~= word_scan(s@.take(i as int)).1);
    }
    assert(s@.take(s@.len() as int) =~= s@);
    let ghost d0 = views(done@);
    let ghost c0 = cur@;
    if cur.len() > 0 {
        done.push(cur);
        assert(views(done@) =~= d0.push(c0));
    }
    done
}

/// The words of `ws` from index `from` on, joined with single spaces.
fn join_from(ws: &Vec<Vec<char>>, from: usize) -> (r: String)
    requires
        from <= ws@.len(),
    ensures
        r@ == join_words(views(ws@).skip(from as int)),
{
    let mut out = String::new();
    if from >= ws.len() {
        assert(views(ws@).skip(from as int) =~= Seq::<Seq<char>>::empty());
        return out;
    }
    let mut i: usize = from;
    assert(views(ws@).subrange(from as int, from as int) =~= Seq::<Seq<char>>::empty());
    while i < ws.len()
        invariant
            from <= i <= ws@.len(),
            from < ws@.len(),
            out@ == join_words(views(ws@).subrange(from as int, i as int)),
        decreases ws@.len() - i,
    {
        let ghost before = out@;
        let ghost part = views(ws@).subrange(from as int, i + 1);
        assert(part.drop_last() =~= views(ws@).subrange(from as int, i as int));
        assert(part.last() == ws@[i as int]@);
        if i > from {
            push_char(&mut out, ' ');
        } else {
            assert(part =~= seq![ws@[i as int]@]);
        }
        push_chars(&mut out, ws[i].as_slice());
        i = i + 1;
    }
    assert(views(ws@).subrange(from as int, ws@.len() as int) =~= views(ws@).skip(from as int));
    out
}

// ---------------------------------------------------------------------------
// Rendering
// ---------------------------------------------------------------------------

/// How an error is spelled in messages.
pub open spec fn error_name(e: FsError) -> Seq<char> {
    match e {
        FsError::NotFound => "NotFound"@,
        FsError::NotADir => "NotADir"@,
        FsError::IsADir => "IsADir"@,
        FsError::Io => "Io"@,
        FsError::Unsupported => "Unsupported"@,
    }
}

fn error_name_str(e: FsError) -> (r: &'static str)
    ensures
        r@ == error_name(e),
{
    match e {
        FsError::NotFound => "NotFound",
        FsError::NotADir => "NotADir",
        FsError::IsADir => "IsADir",
        FsError::Io => "Io",
        FsError::Unsupported => "Unsupported",
    }
}

/// The answer of `cmd` (`touch`, `mkdir`, `rm`, `write`) on `path` when
/// its request gave `r`.
pub open spec fn change_message(cmd: Seq<char>, path: Seq<char>, r: Result<(), FsError>) -> Seq<char> {
    match r {
        Ok(()) => Seq::empty(),
        Err(FsError::Unsupported) => cmd + ": read-only filesystem"@ + seq!['\n'],
        Err(e) => cmd + ": "@ + path + ": "@ + error_name(e) + seq!['\n'],
    }
}

fn change_message_of(cmd: &str, path: &str, r: Result<(), FsError>) -> (out: String)
    ensures
        out@ == change_message(cmd@, path@, r),
{
    let mut out = String::new();
    match r {
        Ok(()) => {},
        Err(FsError::Unsupported) => {
            push_str_chars(&mut out, cmd);
            push_str_chars(&mut out, ": read-only filesystem");
            push_char(&mut out, '\n');
        },
        Err(e) => {
            push_str_chars(&mut out, cmd);
            push_str_chars(&mut out, ": ");
            push_str_chars(&mut out, path);
            push_str_chars(&mut out, ": ");
            push_str_chars(&mut out, error_name_str(e));
            push_char(&mut out, '\n');
        },
    }
    out
}

/// The answer of `cmd` when its operand is missing.
pub open spec fn missing_operand(cmd: Seq<char>) -> Seq<char> {
    cmd + ": missing operand"@ + seq!['\n']
}

fn missing_operand_of(cmd: &str) -> (out: String)
    ensures
        out@ == missing_operand(cmd@),
{
    let mut out = String::new();
    push_str_chars(&mut out, cmd);
    push_str_chars(&mut out, ": missing operand");
    push_char(&mut out, '\n');
    out
}

/// `prefix` followed by `path` and a line feed.
pub open spec fn line_about(prefix: Seq<char>, path: Seq<char>) -> Seq<char> {
    prefix + path + seq!['\n']
}

fn line_about_of(prefix: &str, path: &str) -> (out: String)
    ensures
        out@ == line_about(prefix@, path@),
{
    let mut out = String::new();
    push_str_chars(&mut out, prefix);
    push_str_chars(&mut out, path);
    push_char(&mut out, '\n');
    out
}

/// The answer of `ls` on `target` when listing failed with `e`.
pub open spec fn ls_error(target: Seq<char>, e: FsError) -> Seq<char> {
    match e {
        FsError::NotFound => line_about("ls: not found: "@, target),
        FsError::NotADir => line_about("ls: not a directory: "@, target),
        FsError::Io => line_about("ls: i/o error: "@, target),
        FsError::Unsupported => line_about("ls: unsupported: "@, target),
        // A listing never fails with `IsADir`.
        FsError::IsADir => Seq::empty(),
    }
}

fn ls_error_of(target: &str, e: FsError) -> (out: String)
    requires
        e != FsError::IsADir,
    ensures
        out@ == ls_error(target@, e),
{
    match e {
        FsError::NotFound => line_about_of("ls: not found: ", target),
        FsError::NotADir => line_about_of("ls: not a directory: ", target),
        FsError::Io => line_about_of("ls: i/o error: ", target),
        FsError::Unsupported => line_about_of("ls: unsupported: ", target),
        FsError::IsADir => String::new(),
    }
}

/// The answer of `cat` on `path` when reading failed with `e`.
pub open spec fn cat_error(path: Seq<char>, e: FsError) -> Seq<char> {
    match e {
        FsError::NotFound => line_about("cat: not found: "@, path),
        FsError::IsADir => line_about("cat: is a directory: "@, path),
        FsError::NotADir => line_about("cat: not a directory: "@, path),
        FsError::Io => line_about("cat: i/o error: "@, path),
        FsError::Unsupported => line_about("cat: unsupported: "@, path),
    }
}

fn cat_error_of(path: &str, e: FsError) -> (out: String)
    ensures
        out@ == cat_error(path@, e),
{
    match e {
        FsError::NotFound => line_about_of("cat: not found: ", path),
        FsError::IsADir => line_about_of("cat: is a directory: ", path),
        FsError::NotADir => line_about_of("cat: not a directory: ", path),
        FsError::Io => line_about_of("cat: i/o error: ", path),
        FsError::Unsupported => line_about_of("cat: unsupported: ", path),
    }
}

/// Each byte taken as the character with that code.
pub open spec fn latin1(b: Seq<u8>) -> Seq<char> {
    b.map_values(|x: u8| x as char)
}

/// The text of a file: its UTF-8 decoding when it is valid UTF-8, else each
/// byte as a character.
pub open spec fn text_of(b: Seq<u8>) -> Seq<char> {
    if valid_utf8(b) {
        decode_utf8(b)
    } else {
        latin1(b)
    }
}

/// `s`, ending with a line feed.
pub open spec fn with_newline(s: Seq<char>) -> Seq<char> {
    if s.len() > 0 && s.last() == '\n' {
        s
    } else {
        s.push('\n')
    }
}

/// The answer of `cat` on `path` when reading gave `r`.
pub open spec fn cat_output(path: Seq<char>, r: Result<Seq<u8>, FsError>) -> Seq<char> {
    match r {
        Ok(b) => with_newline(text_of(b)),
        Err(e) => cat_error(path, e),
    }
}

/// `core::str::from_utf8`: the text that `bytes` encode, when they are
/// valid UTF-8 (the contract claims it answers exactly for valid UTF-8 and
/// decodes as UTF-8 does).
#[verifier::external_body]
fn utf8_text(bytes: &[u8]) -> (r: Option<String>)
    ensures
        match r {
            Some(s) => valid_utf8(bytes@) && s@ == decode_utf8(bytes@),
            None => !valid_utf8(bytes@),
        },
{
    match core::str::from_utf8(bytes) {
        Ok(s) => Some(s.to_string()),
        Err(_) => None,
    }
}

/// The characters with the codes of `bytes`.
fn latin1_of(bytes: &[u8]) -> (r: String)
    ensures
        r@ == latin1(bytes@),
{
    let mut out = String::new();
    let mut i: usize = 0;
    while i < bytes.len()
        invariant
            i <= bytes@.len(),
            out@ == latin1(bytes@.take(i as int)),
        decreases bytes@.len() - i,
    {
        let c = bytes[i] as char;
        push_char(&mut out, c);
        i = i + 1;
        assert(out@ =~= latin1(bytes@.take(i as int)));
    }
    assert(bytes@.take(bytes@.len() as int) =~= bytes@);
    out
}

/// The text a write of `bytes` to `/dev/console` shows: their UTF-8
/// decoding when they are valid UTF-8, else each byte as the character with
/// that code.
pub fn console_text(bytes: &[u8]) -> (r: String)
    ensures
        r@ == text_of(bytes@),
{
    match utf8_text(bytes) {
        Some(t) => t,
        None => latin1_of(bytes),
    }
}

/// What `cat` shows of the bytes `b`.
fn cat_text_of(b: &[u8]) -> (out: String)
    ensures
        out@ == with_newline(text_of(b@)),
{
    let mut s = match utf8_text(b) {
        Some(t) => t,
        None => latin1_of(b),
    };
    let cs = chars_of(s.as_str());
    if cs.len() > 0 && cs[cs.len() - 1] == '\n' {
        s
    } else {
        push_char(&mut s, '\n');
        s
    }
}

/// How the `mount` command shows a prefix: the root as `/`.
pub open spec fn shown_prefix(p: Seq<char>) -> Seq<char> {
    if p.len() == 0 {
        seq!['/']
    } else {
        p
    }
}

/// The answer of `mount`: one `<prefix> on <backing>` line per mount, in
/// mount order.
pub open spec fn mount_text(ms: Seq<Mount>) -> Seq<char>
    decreases ms.len(),
{
    if ms.len() == 0 {
        Seq::empty()
    } else {
        mount_text(ms.drop_last()) + shown_prefix(ms.last().prefix@) + " on "@ + ms.last().fs.spec_backing() + seq!['\n']
    }
}

/// One line of `ls`: the name, `/` after a directory.
pub open spec fn ls_line(name: Seq<char>, dir: bool) -> Seq<char> {
    if dir {
        name + seq!['/', '\n']
    } else {
        name + seq!['\n']
    }
}

/// The answer of `ls` for the entries `es` (name, whether a directory).
pub open spec fn ls_text(es: Seq<(Seq<char>, bool)>) -> Seq<char>
    decreases es.len(),
{
    if es.len() == 0 {
        Seq::empty()
    } else {
        ls_text(es.drop_last()) + ls_line(es.last().0, es.last().1)
    }
}

/// The path of the entry `name` in the directory `dir`.
pub open spec fn child_path(dir: Seq<char>, name: Seq<char>) -> Seq<char> {
    trim_trailing_slashes(dir) + seq!['/'] + name
}

/// The names of `es`.
pub open spec fn entry_names(es: Seq<(Seq<char>, bool)>) -> Seq<Seq<char>> {
    es.map_values(|e: (Seq<char>, bool)| e.0)
}

/// `es` shows the listing `names` of `dir` on `v`: sorted by name, each
/// marked with what asking whether it is a directory may give.
pub open spec fn shows_listing<D: BlockDevice>(v: Vfs<D>, dir: Seq<char>, names: Seq<Seq<char>>, es: Seq<(Seq<char>, bool)>) -> bool {
    &&& names_sorted(entry_names(es))
    &&& entry_names(es).to_multiset() == names.to_multiset()
    &&& forall|i: int| 0 <= i < es.len() ==> v.answers_is_dir(child_path(dir, #[trigger] es[i].0), es[i].1)
}

/// `out` is an answer of `ls` on `dir` over `v`.
pub open spec fn ls_ran<D: BlockDevice>(v: Vfs<D>, dir: Seq<char>, out: Seq<char>) -> bool {
    exists|r: Result<Seq<Seq<char>>, FsError>|
        #[trigger] v.lists(dir, r) && match r {
            Ok(names) => exists|es: Seq<(Seq<char>, bool)>| #[trigger] shows_listing(v, dir, names, es) && out == ls_text(es),
            Err(e) => out == ls_error(dir, e),
        }
}

/// The characters of an optional string.
pub open spec fn opt_view(a: Option<String>) -> Option<Seq<char>> {
    match a {
        Some(s) => Some(s@),
        None => None,
    }
}

/// The operand `i` of the words `ws` (the command is word 0).
pub open spec fn operand(ws: Seq<Seq<char>>, i: int) -> Option<Seq<char>> {
    if i < ws.len() {
        Some(ws[i])
    } else {
        None
    }
}

pub struct Shell<D: BlockDevice> {
    vfs: Vfs<D>,
    cwd: String,
}

impl<D: BlockDevice> Shell<D> {
    pub closed spec fn spec_vfs(&self) -> Vfs<D> {
        self.vfs
    }

    /// The working directory.
    pub closed spec fn spec_cwd(&self) -> Seq<char> {
        self.cwd@
    }

    pub open spec fn wf(&self) -> bool {
        self.spec_vfs().wf()
    }

    /// Neither the filesystems nor the working directory changed.
    pub open spec fn kept(&self, new: &Self) -> bool {
        &&& self.spec_vfs().same(&new.spec_vfs())
        &&& new.spec_cwd() == self.spec_cwd()
    }

    /// `cmd` (`touch`, `mkdir`, `rm`) with the operand `a` ran as the
    /// request `c` on its path, answering `out`.
    pub open spec fn change_ran(&self, new: &Self, cmd: Seq<char>, a: Option<Seq<char>>, c: Change, out: Seq<char>) -> bool {
        match a {
            None => out == missing_operand(cmd) && self.kept(new),
            Some(p) => {
                let t = spec_normalize(self.spec_cwd(), p);
                &&& new.spec_cwd() == self.spec_cwd()
                &&& exists|r: Result<(), FsError>|
                    #[trigger] self.spec_vfs().changed(&new.spec_vfs(), t, c, r) && out == change_message(cmd, t, r)
            },
        }
    }

    /// `cd` to `t` took `self` to `new`, answering `out`.
    pub open spec fn cd_ran(&self, new: &Self, t: Seq<char>, out: Seq<char>) -> bool {
        &&& self.spec_vfs().same(&new.spec_vfs())
        &&& exists|b: bool| #[trigger] self.spec_vfs().answers_is_dir(t, b) && if b {
            new.spec_cwd() == t && out.len() == 0
        } else {
            new.spec_cwd() == self.spec_cwd() && out == line_about("cd: not a directory: "@, t)
        }
    }

    /// `cat` with the operand `a` answered `out`.
    pub open spec fn cat_ran(&self, new: &Self, a: Option<Seq<char>>, out: Seq<char>) -> bool {
        &&& self.kept(new)
        &&& match a {
            None => out == missing_operand("cat"@),
            Some(p) => {
                let t = spec_normalize(self.spec_cwd(), p);
                exists|r: Result<Seq<u8>, FsError>| #[trigger] self.spec_vfs().reads(t, r) && out == cat_output(t, r)
            },
        }
    }

    /// Running the command line `line` took `self` to `new` and answered
    /// `out`.
    pub open spec fn ran(&self, new: &Self, line: Seq<char>, out: Seq<char>) -> bool {
        let ws = words(line);
        let cwd = self.spec_cwd();
        let v = self.spec_vfs();
        if ws.len() == 0 {
            out.len() == 0 && self.kept(new)
        } else {
            let cmd = ws[0];
            let a = operand(ws, 1);
            if cmd == "pwd"@ {
                out == cwd.push('\n') && self.kept(new)
            } else if cmd == "ls"@ {
                let t = match a {
                    Some(p) => spec_normalize(cwd, p),
                    None => cwd,
                };
                self.kept(new) && ls_ran(v, t, out)
            } else if cmd == "cd"@ {
                let t = match a {
                    Some(p) => spec_normalize(cwd, p),
                    None => seq!['/'],
                };
                self.cd_ran(new, t, out)
            } else if cmd == "cat"@ {
                self.cat_ran(new, a, out)
            } else if cmd == "echo"@ {
                out == join_words(ws.skip(1)).push('\n') && self.kept(new)
            } else if cmd == "clear"@ {
                out == CLEAR_SENTINEL@ && self.kept(new)
            } else if cmd == "mount"@ {
                out == mount_text(v.table()) && self.kept(new)
            } else if cmd == "uptime"@ {
                out == decimal(v.clock() as nat) + " ticks"@ + seq!['\n'] && self.kept(new)
            } else if cmd == "touch"@ {
                self.change_ran(new, cmd, a, Change::CreateFile, out)
            } else if cmd == "mkdir"@ {
                self.change_ran(new, cmd, a, Change::CreateDir, out)
            } else if cmd == "rm"@ {
                self.change_ran(new, cmd, a, Change::Remove, out)
            } else if cmd == "write"@ {
                match a {
                    None => out == "write: missing operand: <path> <text...>"@ + seq!['\n'] && self.kept(new),
                    Some(p) => {
                        let t = spec_normalize(cwd, p);
                        let data = encode_utf8(join_words(ws.skip(2)).push('\n'));
                        &&& new.spec_cwd() == cwd
                        &&& exists|r: Result<(), FsError>|
                            #[trigger] v.changed(&new.spec_vfs(), t, Change::WriteFile(data), r) && out == change_message(
                                cmd,
                                t,
                                r,
                            )
                    },
                }
            } else if cmd == "help"@ {
                out == HELP_TEXT@ && self.kept(new)
            } else {
                out == "willo: command not found: "@ + cmd + seq!['\n'] && self.kept(new)
            }
        }
    }

    /// A shell over `vfs`, in `/`.
    pub fn new(vfs: Vfs<D>) -> (s: Self)
        requires
            vfs.wf(),
        ensures
            s.wf(),
            s.spec_vfs() == vfs,
            s.spec_cwd() == seq!['/'],
    {
        let mut cwd = String::new();
        push_char(&mut cwd, '/');
        assert(cwd@ =~= seq!['/']);
        Shell { vfs, cwd }
    }

    /// The prompt: `willo:<cwd>$ `.
    pub fn prompt(&self) -> (r: String)
        ensures
            r@ == "willo:"@ + self.spec_cwd() + "$ "@,
    {
        let mut out = String::new();
        push_str_chars(&mut out, "willo:");
        push_str_chars(&mut out, self.cwd.as_str());
        push_str_chars(&mut out, "$ ");
        out
    }

    /// The filesystems the shell works on.
    pub fn vfs_ref(&self) -> (r: &Vfs<D>)
        ensures
            *r == self.spec_vfs(),
    {
        &self.vfs
    }

    /// Set the clock that `uptime` and `/proc/uptime` report.
    pub fn set_ticks(&mut self, ticks: u64)
        requires
            old(self).wf(),
        ensures
            final(self).wf(),
            final(self).spec_vfs().clock() == ticks,
            final(self).spec_vfs().table() == old(self).spec_vfs().table(),
            final(self).spec_vfs().disk() == old(self).spec_vfs().disk(),
            final(self).spec_cwd() == old(self).spec_cwd(),
    {
        self.vfs.set_ticks(ticks);
    }

    /// Hand over the console writes queued on the devfs mounts.
    pub fn take_console(&mut self) -> (r: Vec<Vec<u8>>)
        requires
            old(self).wf(),
        ensures
            final(self).wf(),
            r@.map_values(|v: Vec<u8>| v@) == crate::vfs::console_backlog(old(self).spec_vfs().table()),
            final(self).spec_cwd() == old(self).spec_cwd(),
    {
        self.vfs.take_console()
    }

    /// Hand over the serial bytes queued on the devfs mounts.
    pub fn take_serial(&mut self) -> (r: Vec<u8>)
        requires
            old(self).wf(),
        ensures
            final(self).wf(),
            r@ == crate::vfs::serial_backlog(old(self).spec_vfs().table()),
            final(self).spec_cwd() == old(self).spec_cwd(),
    {
        self.vfs.take_serial()
    }
    /// `ls` on the directory `t`.
    fn ls_at(&mut self, t: &str) -> (out: String)
        requires
            old(self).wf(),
        ensures
            final(self).wf(),
            old(self).kept(&*final(self)),
            ls_ran(old(self).spec_vfs(), t@, out@),
    {
        let ghost v0 = self.vfs;
        let entries = match self.vfs.list_dir(t) {
            Ok(v) => v,
            Err(e) => {
                proof {
                    crate::vfs::lemma_listing_errors(v0, t@);
                }
                let out = ls_error_of(t, e);
                assert(v0.lists(t@, Err::<Seq<Seq<char>>, FsError>(e)));
                return out;
            },
        };
        let ghost listed = strings_view(entries@);
        assert(v0.lists(t@, Ok::<Seq<Seq<char>>, FsError>(listed)));
        let mut names: Vec<Vec<char>> = Vec::new();
        let mut i: usize = 0;
        while i < entries.len()
            invariant
                i <= entries@.len(),
                views(names@) == strings_view(entries@).take(i as int),
            decreases entries@.len() - i,
        {
            let cs = chars_of(entries[i].as_str());
            let ghost before = views(names@);
            names.push(cs);
            assert(views(names@) =~= before.push(entries@[i as int]@));
            assert(strings_view(entries@).take(i + 1) =~= strings_view(entries@).take(i as int).push(entries@[i as int]@));
            i = i + 1;
        }
        assert(strings_view(entries@).take(entries@.len() as int) =~= listed);
        let sorted = sort_names(names);
        let dir = canonical_prefix(chars_of(t).as_slice());
        let mut out = String::new();
        let ghost mut es: Seq<(Seq<char>, bool)> = Seq::empty();
        let mut k: usize = 0;
        while k < sorted.len()
            invariant
                k <= sorted@.len(),
                self.wf(),
                v0.same(&self.vfs),
                v0.wf(),
                self.cwd == old(self).cwd,
                v0 == old(self).vfs,
                dir@ == trim_trailing_slashes(t@),
                es.len() == k,
                entry_names(es) == views(sorted@).take(k as int),
                forall|j: int| 0 <= j < k ==> v0.answers_is_dir(child_path(t@, #[trigger] es[j].0), es[j].1),
                out@ == ls_text(es),
            decreases sorted@.len() - k,
        {
            let mut child = String::new();
            push_chars(&mut child, dir.as_slice());
            push_char(&mut child, '/');
            push_chars(&mut child, sorted[k].as_slice());
            let ghost vk = self.vfs;
            let b = self.vfs.is_dir(child.as_str());
            proof {
                lemma_same_answers(v0, vk, child@);
            }
            let ghost before = out@;
            push_chars(&mut out, sorted[k].as_slice());
            if b {
                push_char(&mut out, '/');
            }
            push_char(&mut out, '\n');
            proof {
                let e = (sorted@[k as int]@, b);
                let es2 = es.push(e);
                assert(child@ =~= child_path(t@, sorted@[k as int]@));
                assert(v0.answers_is_dir(child_path(t@, es2[k as int].0), es2[k as int].1));
                assert forall|j: int| 0 <= j < k + 1 implies v0.answers_is_dir(child_path(t@, #[trigger] es2[j].0), es2[j].1) by {
                    if j < k {
                        assert(es2[j] == es[j]);
                    }
                }
                assert(es2.drop_last() =~= es);
                assert(out@ =~= ls_text(es2));
                assert(entry_names(es2) =~= views(sorted@).take(k + 1));
                es = es2;
            }
            k = k + 1;
        }
        proof {
            assert(views(sorted@).take(sorted@.len() as int) =~= views(sorted@));
            assert(entry_names(es) =~= views(sorted@));
            assert(shows_listing(v0, t@, listed, es));
        }
        out
    }

    /// `cd` to `t`.
    fn cd_to(&mut self, t: String) -> (out: String)
        requires
            old(self).wf(),
        ensures
            final(self).wf(),
            old(self).cd_ran(&*final(self), t@, out@),
    {
        let b = self.vfs.is_dir(t.as_str());
        assert(old(self).spec_vfs().answers_is_dir(t@, b));
        if b {
            self.cwd = t;
            String::new()
        } else {
            line_about_of("cd: not a directory: ", t.as_str())
        }
    }

    /// `cat` of `t`.
    fn cat_of(&mut self, t: &str) -> (out: String)
        requires
            old(self).wf(),
        ensures
            final(self).wf(),
            old(self).kept(&*final(self)),
            exists|r: Result<Seq<u8>, FsError>| #[trigger] old(self).spec_vfs().reads(t@, r) && out@ == cat_output(t@, r),
    {
        match self.vfs.read_file(t) {
            Ok(bytes) => {
                assert(old(self).spec_vfs().reads(t@, Ok::<Seq<u8>, FsError>(bytes@)));
                cat_text_of(bytes.as_slice())
            },
            Err(e) => {
                assert(old(self).spec_vfs().reads(t@, Err::<Seq<u8>, FsError>(e)));
                cat_error_of(t, e)
            },
        }
    }

    /// `cat` with the operand `a`.
    fn cat_cmd(&mut self, a: Option<String>) -> (out: String)
        requires
            old(self).wf(),
        ensures
            final(self).wf(),
            old(self).cat_ran(&*final(self), opt_view(a), out@),
    {
        let p = match a {
            Some(p) => p,
            None => return missing_operand_of("cat"),
        };
        let t = normalize(self.cwd.as_str(), p.as_str());
        assert(t@ == spec_normalize(old(self).spec_cwd(), opt_view(a)->Some_0));
        self.cat_of(t.as_str())
    }

    /// The `mount` table as text.
    fn mount_listing(&self) -> (out: String)
        requires
            self.wf(),
        ensures
            out@ == mount_text(self.spec_vfs().table()),
    {
        let ms = self.vfs.mounts();
        let ghost tb = self.vfs.table();
        let mut out = String::new();
        let mut i: usize = 0;
        assert(tb.take(0) =~= Seq::<Mount>::empty());
        while i < ms.len()
            invariant
                i <= ms@.len(),
                ms@.len() == tb.len(),
                tb == self.vfs.table(),
                forall|k: int|
                    0 <= k < ms@.len() ==> (#[trigger] ms@[k]).0@ == shown_prefix(tb[k].prefix@) && ms@[k].1@
                        == tb[k].fs.spec_backing(),
                out@ == mount_text(tb.take(i as int)),
            decreases ms@.len() - i,
        {
            assert(tb.take(i + 1).drop_last() =~= tb.take(i as int));
            assert(tb.take(i + 1).last() == tb[i as int]);
            assert(ms@[i as int].0@ == shown_prefix(tb[i as int].prefix@));
            push_str_chars(&mut out, ms[i].0.as_str());
            push_str_chars(&mut out, " on ");
            push_str_chars(&mut out, ms[i].1);
            push_char(&mut out, '\n');
            i = i + 1;
        }
        assert(tb.take(tb.len() as int) =~= tb);
        out
    }

    /// `touch` with the operand `a`.
    fn touch(&mut self, a: Option<String>) -> (out: String)
        requires
            old(self).wf(),
        ensures
            final(self).wf(),
            old(self).change_ran(&*final(self), "touch"@, opt_view(a), Change::CreateFile, out@),
    {
        let p = match a {
            Some(p) => p,
            None => return missing_operand_of("touch"),
        };
        let t = normalize(self.cwd.as_str(), p.as_str());
        let ghost v = self.vfs;
        let r = self.vfs.create_file(t.as_str());
        let out = change_message_of("touch", t.as_str(), r);
        assert(t@ == spec_normalize(old(self).spec_cwd(), opt_view(a)->Some_0));
        assert(old(self).spec_vfs().changed(&self.spec_vfs(), t@, Change::CreateFile, r) && out@ == change_message("touch"@, t@, r));
        out
    }

    /// `mkdir` with the operand `a`.
    fn mkdir(&mut self, a: Option<String>) -> (out: String)
        requires
            old(self).wf(),
        ensures
            final(self).wf(),
            old(self).change_ran(&*final(self), "mkdir"@, opt_view(a), Change::CreateDir, out@),
    {
        let p = match a {
            Some(p) => p,
            None => return missing_operand_of("mkdir"),
        };
        let t = normalize(self.cwd.as_str(), p.as_str());
        let ghost v = self.vfs;
        let r = self.vfs.create_dir(t.as_str());
        let out = change_message_of("mkdir", t.as_str(), r);
        assert(t@ == spec_normalize(old(self).spec_cwd(), opt_view(a)->Some_0));
        assert(old(self).spec_vfs().changed(&self.spec_vfs(), t@, Change::CreateDir, r) && out@ == change_message("mkdir"@, t@, r));
        out
    }

    /// `rm` with the operand `a`.
    fn rm(&mut self, a: Option<String>) -> (out: String)
        requires
            old(self).wf(),
        ensures
            final(self).wf(),
            old(self).change_ran(&*final(self), "rm"@, opt_view(a), Change::Remove, out@),
    {
        let p = match a {
            Some(p) => p,
            None => return missing_operand_of("rm"),
        };
        let t = normalize(self.cwd.as_str(), p.as_str());
        let ghost v = self.vfs;
        let r = self.vfs.remove(t.as_str());
        let out = change_message_of("rm", t.as_str(), r);
        assert(t@ == spec_normalize(old(self).spec_cwd(), opt_view(a)->Some_0));
        assert(old(self).spec_vfs().changed(&self.spec_vfs(), t@, Change::Remove, r) && out@ == change_message("rm"@, t@, r));
        out
    }

    /// `write` with the words `ws` of its line (`a` is word 1).
    fn write(&mut self, a: Option<String>, ws: &Vec<Vec<char>>) -> (out: String)
        requires
            old(self).wf(),
            opt_view(a) == operand(views(ws@), 1),
        ensures
            final(self).wf(),
            match opt_view(a) {
                None => out@ == "write: missing operand: <path> <text...>"@ + seq!['\n'] && old(self).kept(&*final(self)),
                Some(p) => {
                    let t = spec_normalize(old(self).spec_cwd(), p);
                    let data = encode_utf8(join_words(views(ws@).skip(2)).push('\n'));
                    &&& final(self).spec_cwd() == old(self).spec_cwd()
                    &&& exists|r: Result<(), FsError>|
                        #[trigger] old(self).spec_vfs().changed(&final(self).spec_vfs(), t, Change::WriteFile(data), r)
                            && out@ == change_message("write"@, t, r)
                },
            },
    {
        match a {
            None => {
                let mut out = String::new();
                push_str_chars(&mut out, "write: missing operand: <path> <text...>");
                push_char(&mut out, '\n');
                assert(out@ =~= "write: missing operand: <path> <text...>"@ + seq!['\n']);
                out
            },
            Some(p) => {
                let t = normalize(self.cwd.as_str(), p.as_str());
                let mut content = join_from(ws, 2);
                push_char(&mut content, '\n');
                let data = content.as_str().as_bytes();
                let ghost v = self.vfs;
                let r = self.vfs.write_file(t.as_str(), data);
                let out = change_message_of("write", t.as_str(), r);
                assert(t@ == spec_normalize(old(self).spec_cwd(), opt_view(a)->Some_0));
                assert(data@ == encode_utf8(join_words(views(ws@).skip(2)).push('\n')));
                assert(old(self).spec_vfs().changed(&self.spec_vfs(), t@, Change::WriteFile(data@), r) && out@
                    == change_message("write"@, t@, r));
                out
            },
        }
    }

    /// Run one command line and return what it prints (empty, or ending in
    /// a line feed; `clear` returns [`CLEAR_SENTINEL`]).
    pub fn execute_line(&mut self, line: &str) -> (out: String)
        requires
            old(self).wf(),
        ensures
            final(self).wf(),
            old(self).ran(&*final(self), line@, out@),
    {
        let ghost v = self.vfs;
        let ghost cwd = self.cwd@;
        let ghost ws_spec = words(line@);
        let cs = chars_of(line);
        let ws = words_of(cs.as_slice());
        if ws.len() == 0 {
            return String::new();
        }
        let cmd = &ws[0];
        let a: Option<String> = if ws.len() > 1 {
            Some(string_of(ws[1].as_slice()))
        } else {
            None
        };
        let ghost av = opt_view(a);
        assert(ws_spec[0] == cmd@);
        assert(av == operand(ws_spec, 1));
        if chars_eq(cmd.as_slice(), chars_of("pwd").as_slice()) {
            let mut out = self.cwd.clone();
            push_char(&mut out, '\n');
            out
        } else if chars_eq(cmd.as_slice(), chars_of("ls").as_slice()) {
            let t = match a {
                Some(p) => normalize(self.cwd.as_str(), p.as_str()),
                None => self.cwd.clone(),
            };
            assert(t@ == match av {
                Some(p) => spec_normalize(cwd, p),
                None => cwd,
            });
            let out = self.ls_at(t.as_str());
            assert(old(self).ran(&*self, line@, out@));
            out
        } else if chars_eq(cmd.as_slice(), chars_of("cd").as_slice()) {
            let t = match a {
                Some(p) => normalize(self.cwd.as_str(), p.as_str()),
                None => {
                    let mut s = String::new();
                    push_char(&mut s, '/');
                    assert(s@ =~= seq!['/']);
                    s
                },
            };
            assert(t@ == match av {
                Some(p) => spec_normalize(cwd, p),
                None => seq!['/'],
            });
            let out = self.cd_to(t);
            assert(old(self).ran(&*self, line@, out@));
            out
        } else if chars_eq(cmd.as_slice(), chars_of("cat").as_slice()) {
            let out = self.cat_cmd(a);
            assert(old(self).ran(&*self, line@, out@));
            out
        } else if chars_eq(cmd.as_slice(), chars_of("echo").as_slice()) {
            let mut out = join_from(&ws, 1);
            push_char(&mut out, '\n');
            out
        } else if chars_eq(cmd.as_slice(), chars_of("clear").as_slice()) {
            string_of(chars_of(CLEAR_SENTINEL).as_slice())
        } else if chars_eq(cmd.as_slice(), chars_of("mount").as_slice()) {
            self.mount_listing()
        } else if chars_eq(cmd.as_slice(), chars_of("uptime").as_slice()) {
            let mut out = String::new();
            push_decimal(&mut out, self.vfs.ticks());
            push_str_chars(&mut out, " ticks");
            push_char(&mut out, '\n');
            assert(out@ =~= decimal(v.clock() as nat) + " ticks"@ + seq!['\n']);
            out
        } else if chars_eq(cmd.as_slice(), chars_of("touch").as_slice()) {
            let out = self.touch(a);
            assert(old(self).ran(&*self, line@, out@));
            out
        } else if chars_eq(cmd.as_slice(), chars_of("mkdir").as_slice()) {
            let out = self.mkdir(a);
            assert(old(self).ran(&*self, line@, out@));
            out
        } else if chars_eq(cmd.as_slice(), chars_of("rm").as_slice()) {
            let out = self.rm(a);
            assert(old(self).ran(&*self, line@, out@));
            out
        } else if chars_eq(cmd.as_slice(), chars_of("write").as_slice()) {
            let out = self.write(a, &ws);
            assert(old(self).ran(&*self, line@, out@));
            out
        } else if chars_eq(cmd.as_slice(), chars_of("help").as_slice()) {
            string_of(chars_of(HELP_TEXT).as_slice())
        } else {
            let mut out = String::new();
            push_str_chars(&mut out, "willo: command not found: ");
            push_chars(&mut out, cmd.as_slice());
            push_char(&mut out, '\n');
            assert(out@ =~= "willo: command not found: "@ + cmd@ + seq!['\n']);
            out
        }
    }
}

} // verus!
