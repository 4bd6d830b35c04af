//! Parser for incremental line-attribution ("blame") text: a chunk starts
//! with a header line (a 40-hex-digit hash and two or three integers),
//! followed by `key value` metadata lines until the next header or the end of
//! input. A chunk is emitted only once it has both a hash and a filename.

use vstd::prelude::*;

use crate::strutil::{
    decode_utf8_str, is_hex_digit, is_hex_digit_char, is_prefix_of, lemma_split_char_len,
    parse_u32, parse_u32_spec, parse_u64_or_zero, parse_u64_or_zero_spec, split_char_spec,
    split_on_char, split_whitespace_str, split_ws_spec, starts_with, strip_char_ends,
    strip_leading_spec, strip_prefix_str, strip_trailing_spec, trim_end_spec, trim_end_str,
    trim_spec, trim_str,
};

verus! {

/// One attribution chunk: a run of lines attributed to one commit.
#[derive(Debug)]
pub struct BlameEntry {
    pub sha: String,
    pub short_sha: String,
    pub orig_line: u32,
    pub final_line: u32,
    pub num_lines: u32,
    pub author_name: String,
    pub author_email: String,
    pub author_date: u64,
    pub committer_name: String,
    pub committer_email: String,
    pub committer_date: u64,
    pub summary: String,
    pub filename: String,
}

/// Mathematical view of a `BlameEntry`.
pub ghost struct BlameView {
    pub sha: Seq<char>,
    pub short_sha: Seq<char>,
    pub orig_line: u32,
    pub final_line: u32,
    pub num_lines: u32,
    pub author_name: Seq<char>,
    pub author_email: Seq<char>,
    pub author_date: u64,
    pub committer_name: Seq<char>,
    pub committer_email: Seq<char>,
    pub committer_date: u64,
    pub summary: Seq<char>,
    pub filename: Seq<char>,
}

impl View for BlameEntry {
    type V = BlameView;

    open spec fn view(&self) -> BlameView {
        BlameView {
            sha: self.sha@,
            short_sha: self.short_sha@,
            orig_line: self.orig_line,
            final_line: self.final_line,
            num_lines: self.num_lines,
            author_name: self.author_name@,
            author_email: self.author_email@,
            author_date: self.author_date,
            committer_name: self.committer_name@,
            committer_email: self.committer_email@,
            committer_date: self.committer_date,
            summary: self.summary@,
            filename: self.filename@,
        }
    }
}

impl DeepView for BlameEntry {
    type V = BlameView;

    open spec fn deep_view(&self) -> BlameView {
        self@
    }
}

impl Clone for BlameEntry {
    fn clone(&self) -> (r: Self)
        ensures
            r@ == self@,
    {
        BlameEntry {
            sha: self.sha.clone(),
            short_sha: self.short_sha.clone(),
            orig_line: self.orig_line,
            final_line: self.final_line,
            num_lines: self.num_lines,
            author_name: self.author_name.clone(),
            author_email: self.author_email.clone(),
            author_date: self.author_date,
            committer_name: self.committer_name.clone(),
            committer_email: self.committer_email.clone(),
            committer_date: self.committer_date,
            summary: self.summary.clone(),
            filename: self.filename.clone(),
        }
    }
}

/// Whether a line opens a new chunk: its first whitespace token is exactly 40
/// hexadecimal digits and its second and third tokens parse as `u32`.
pub open spec fn is_sha_header_spec(line: Seq<char>) -> bool {
    let parts = split_ws_spec(line);
    &&& parts.len() >= 3
    &&& parts[0].len() == 40
    &&& forall|i: int| 0 <= i < 40 ==> is_hex_digit_char(#[trigger] parts[0][i])
    &&& parse_u32_spec(parts[1]) is Some
    &&& parse_u32_spec(parts[2]) is Some
}

/// Check whether a line looks like a chunk header.
pub fn is_sha_header(line: &str) -> (r: bool)
    ensures
        r == is_sha_header_spec(line@),
{
    let parts = split_whitespace_str(line);
    proof {
        assert(parts.deep_view().len() == parts@.len());
    }
    if parts.len() < 3 {
        return false;
    }
    let sha = parts[0].as_str();
    let ghost sha_chars = split_ws_spec(line@)[0];
    proof {
        assert(sha@ == sha_chars);
    }
    let n = sha.unicode_len();
    if n != 40 {
        return false;
    }
    let mut i: usize = 0;
    while i < 40
        invariant
            i <= 40,
            sha@.len() == 40,
            sha@ == sha_chars,
            sha_chars == split_ws_spec(line@)[0],
            split_ws_spec(line@).len() >= 3,
            forall|j: int| 0 <= j < i ==> is_hex_digit_char(#[trigger] sha@[j]),
        decreases 40 - i,
    {
        if !is_hex_digit(sha.get_char(i)) {
            return false;
        }
        i += 1;
    }
    let ok1 = parse_u32(parts[1].as_str()).is_some();
    let ok2 = parse_u32(parts[2].as_str()).is_some();
    proof {
        assert(parts[1]@ == split_ws_spec(line@)[1]);
        assert(parts[2]@ == split_ws_spec(line@)[2]);
    }
    ok1 && ok2
}

/// The fields of the chunk currently being scanned.
pub ghost struct BlameAcc {
    pub sha: Seq<char>,
    pub orig_line: u32,
    pub final_line: u32,
    pub num_lines: u32,
    pub author_name: Seq<char>,
    pub author_email: Seq<char>,
    pub author_date: u64,
    pub committer_name: Seq<char>,
    pub committer_email: Seq<char>,
    pub committer_date: u64,
    pub summary: Seq<char>,
    pub filename: Seq<char>,
    pub in_entry: bool,
}

/// The accumulator before any header has been seen.
pub open spec fn empty_acc() -> BlameAcc {
    BlameAcc {
        sha: Seq::empty(),
        orig_line: 0,
        final_line: 0,
        num_lines: 0,
        author_name: Seq::empty(),
        author_email: Seq::empty(),
        author_date: 0,
        committer_name: Seq::empty(),
        committer_email: Seq::empty(),
        committer_date: 0,
        summary: Seq::empty(),
        filename: Seq::empty(),
        in_entry: false,
    }
}

/// The entry an accumulator describes; the abbreviated hash is the first
/// seven characters of the full hash.
pub open spec fn acc_entry(a: BlameAcc) -> BlameView {
    BlameView {
        sha: a.sha,
        short_sha: if a.sha.len() >= 7 {
            a.sha.take(7)
        } else {
            a.sha
        },
        orig_line: a.orig_line,
        final_line: a.final_line,
        num_lines: a.num_lines,
        author_name: a.author_name,
        author_email: a.author_email,
        author_date: a.author_date,
        committer_name: a.committer_name,
        committer_email: a.committer_email,
        committer_date: a.committer_date,
        summary: a.summary,
        filename: a.filename,
    }
}

/// Emit the open chunk, but only if it has both a hash and a filename.
pub open spec fn flush_acc(a: BlameAcc) -> Seq<BlameView> {
    if a.in_entry && a.sha.len() > 0 && a.filename.len() > 0 {
        seq![acc_entry(a)]
    } else {
        Seq::empty()
    }
}

/// The accumulator opened by a header line: hash and line numbers from the
/// first tokens, the line count defaulting to one when absent or unreadable.
pub open spec fn header_acc(line: Seq<char>) -> BlameAcc {
    let parts = split_ws_spec(line);
    BlameAcc {
        sha: parts[0],
        orig_line: match parse_u32_spec(parts[1]) {
            Some(v) => v,
            None => 0,
        },
        final_line: match parse_u32_spec(parts[2]) {
            Some(v) => v,
            None => 0,
        },
        num_lines: if parts.len() > 3 {
            match parse_u32_spec(parts[3]) {
                Some(v) => v,
                None => 1,
            }
        } else {
            1
        },
        author_name: Seq::empty(),
        author_email: Seq::empty(),
        author_date: 0,
        committer_name: Seq::empty(),
        committer_email: Seq::empty(),
        committer_date: 0,
        summary: Seq::empty(),
        filename: Seq::empty(),
        in_entry: true,
    }
}

/// An email value with its surrounding angle brackets removed.
pub open spec fn unwrap_email(v: Seq<char>) -> Seq<char> {
    strip_trailing_spec(strip_leading_spec(v, '<'), '>')
}

/// One line of input applied to the scan state: the new accumulator and the
/// entries emitted so far.
pub open spec fn blame_line_step(a: BlameAcc, out: Seq<BlameView>, line_raw: Seq<char>) -> (
    BlameAcc,
    Seq<BlameView>,
) {
    let line = trim_end_spec(line_raw);
    if line.len() == 0 {
        (a, out)
    } else if line[0] == '\t' {
        (a, out)
    } else if is_sha_header_spec(line) {
        (header_acc(line), out + flush_acc(a))
    } else if !a.in_entry {
        (a, out)
    } else if is_prefix_of("author-mail "@, line) {
        (BlameAcc { author_email: unwrap_email(line.skip("author-mail "@.len() as int)), ..a }, out)
    } else if is_prefix_of("author-time "@, line) {
        (
            BlameAcc {
                author_date: parse_u64_or_zero_spec(trim_spec(line.skip("author-time "@.len() as int))),
                ..a
            },
            out,
        )
    } else if is_prefix_of("author-tz "@, line) {
        (a, out)
    } else if is_prefix_of("author "@, line) {
        (BlameAcc { author_name: line.skip("author "@.len() as int), ..a }, out)
    } else if is_prefix_of("committer-mail "@, line) {
        (
            BlameAcc { committer_email: unwrap_email(line.skip("committer-mail "@.len() as int)), ..a },
            out,
        )
    } else if is_prefix_of("committer-time "@, line) {
        (
            BlameAcc {
                committer_date: parse_u64_or_zero_spec(
                    trim_spec(line.skip("committer-time "@.len() as int)),
                ),
                ..a
            },
            out,
        )
    } else if is_prefix_of("committer-tz "@, line) {
        (a, out)
    } else if is_prefix_of("committer "@, line) {
        (BlameAcc { committer_name: line.skip("committer "@.len() as int), ..a }, out)
    } else if is_prefix_of("summary "@, line) {
        (BlameAcc { summary: line.skip("summary "@.len() as int), ..a }, out)
    } else if is_prefix_of("filename "@, line) {
        (BlameAcc { filename: line.skip("filename "@.len() as int), ..a }, out)
    } else {
        (a, out)
    }
}

/// Scan the remaining lines, then flush whatever chunk is still open.
pub open spec fn blame_scan(ls: Seq<Seq<char>>, a: BlameAcc, out: Seq<BlameView>) -> Seq<BlameView>
    decreases ls.len(),
{
    if ls.len() == 0 {
        out + flush_acc(a)
    } else {
        let step = blame_line_step(a, out, ls[0]);
        blame_scan(ls.skip(1), step.0, step.1)
    }
}

/// The lines of `s`: pieces split on newline, without the empty piece a
/// trailing newline would leave.
pub open spec fn lines_of(s: Seq<char>) -> Seq<Seq<char>> {
    let ls = split_char_spec(s, '\n');
    if ls.last().len() == 0 {
        ls.drop_last()
    } else {
        ls
    }
}

/// What parsing a raw blame buffer yields: nothing for text that is not
/// UTF-8, else the chunks of the scan.
pub open spec fn spec_parse_blame(raw: Seq<u8>) -> Seq<BlameView> {
    if !vstd::utf8::valid_utf8(raw) {
        Seq::empty()
    } else {
        blame_scan(lines_of(vstd::utf8::decode_utf8(raw)), empty_acc(), Seq::empty())
    }
}

/// Every entry a scan emits has a hash and a filename, provided the entries
/// already emitted do.
proof fn lemma_blame_scan_complete(ls: Seq<Seq<char>>, a: BlameAcc, out: Seq<BlameView>)
    requires
        forall|i: int|
            0 <= i < out.len() ==> (#[trigger] out[i]).filename.len() > 0 && out[i].sha.len() > 0,
    ensures
        forall|i: int|
            0 <= i < blame_scan(ls, a, out).len() ==> (#[trigger] blame_scan(ls, a, out)[i]).filename.len()
                > 0 && blame_scan(ls, a, out)[i].sha.len() > 0,
    decreases ls.len(),
{
    if ls.len() == 0 {
        let res = out + flush_acc(a);
        assert(blame_scan(ls, a, out) == res);
        assert forall|i: int| 0 <= i < res.len() implies (#[trigger] res[i]).filename.len() > 0
            && res[i].sha.len() > 0 by {
            if i < out.len() {
                assert(res[i] == out[i]);
            } else {
                assert(res[i] == flush_acc(a)[i - out.len()]);
            }
        }
    } else {
        let step = blame_line_step(a, out, ls[0]);
        assert forall|i: int| 0 <= i < step.1.len() implies (#[trigger] step.1[i]).filename.len()
            > 0 && step.1[i].sha.len() > 0 by {
            if i < out.len() {
                assert(step.1[i] == out[i]);
            } else {
                assert(step.1[i] == flush_acc(a)[i - out.len()]);
            }
        }
        lemma_blame_scan_complete(ls.skip(1), step.0, step.1);
        assert(blame_scan(ls, a, out) == blame_scan(ls.skip(1), step.0, step.1));
    }
}

/// Law: a chunk lacking a filename line is dropped, even when its header was
/// valid — every emitted entry carries a non-empty filename and a non-empty
/// hash.
pub proof fn lemma_blame_chunks_complete(raw: Seq<u8>)
    ensures
        forall|i: int|
            0 <= i < spec_parse_blame(raw).len() ==> (#[trigger] spec_parse_blame(raw)[i]).filename.len()
                > 0 && spec_parse_blame(raw)[i].sha.len() > 0,
{
    if vstd::utf8::valid_utf8(raw) {
        lemma_blame_scan_complete(
            lines_of(vstd::utf8::decode_utf8(raw)),
            empty_acc(),
            Seq::<BlameView>::empty(),
        );
    }
}

/// The executable accumulator mirroring [`BlameAcc`].
struct Acc {
    sha: String,
    orig_line: u32,
    final_line: u32,
    num_lines: u32,
    author_name: String,
    author_email: String,
    author_date: u64,
    committer_name: String,
    committer_email: String,
    committer_date: u64,
    summary: String,
    filename: String,
    in_entry: bool,
}

impl View for Acc {
    type V = BlameAcc;

    closed spec fn view(&self) -> BlameAcc {
        BlameAcc {
            sha: self.sha@,
            orig_line: self.orig_line,
            final_line: self.final_line,
            num_lines: self.num_lines,
            author_name: self.author_name@,
            author_email: self.author_email@,
            author_date: self.author_date,
            committer_name: self.committer_name@,
            committer_email: self.committer_email@,
            committer_date: self.committer_date,
            summary: self.summary@,
            filename: self.filename@,
            in_entry: self.in_entry,
        }
    }
}

impl Acc {
    fn new() -> (r: Acc)
        ensures
            r@ == empty_acc(),
    {
        Acc {
            sha: String::new(),
            orig_line: 0,
            final_line: 0,
            num_lines: 0,
            author_name: String::new(),
            author_email: String::new(),
            author_date: 0,
            committer_name: String::new(),
            committer_email: String::new(),
            committer_date: 0,
            summary: String::new(),
            filename: String::new(),
            in_entry: false,
        }
    }

    /// The entry this accumulator describes.
    fn to_entry(&self) -> (r: BlameEntry)
        ensures
            r@ == acc_entry(self@),
    {
        let short_sha = if self.sha.as_str().unicode_len() >= 7 {
            let s = self.sha.as_str().substring_char(0, 7).to_owned();
            proof {
                assert(s@ =~= self.sha@.take(7));
            }
            s
        } else {
            self.sha.clone()
        };
        BlameEntry {
            sha: self.sha.clone(),
            short_sha,
            orig_line: self.orig_line,
            final_line: self.final_line,
            num_lines: self.num_lines,
            author_name: self.author_name.clone(),
            author_email: self.author_email.clone(),
            author_date: self.author_date,
            committer_name: self.committer_name.clone(),
            committer_email: self.committer_email.clone(),
            committer_date: self.committer_date,
            summary: self.summary.clone(),
            filename: self.filename.clone(),
        }
    }

    /// Push the open chunk onto `out` if it is complete.
    fn flush_into(&self, out: &mut Vec<BlameEntry>)
        ensures
            final(out).deep_view() == old(out).deep_view() + flush_acc(self@),
    {
        if self.in_entry && self.sha.as_str().unicode_len() > 0 && self.filename.as_str().unicode_len()
            > 0 {
            let ghost before = out.deep_view();
            let entry = self.to_entry();
            out.push(entry);
            proof {
                assert(out.deep_view() =~= before + flush_acc(self@));
            }
        } else {
            proof {
                assert(out.deep_view() =~= old(out).deep_view() + flush_acc(self@));
            }
        }
    }
}

/// Parse incremental blame text into its complete chunks, in input order.
/// Input that is not valid UTF-8 yields an empty result.
pub fn parse_blame_output(raw: &[u8]) -> (r: Vec<BlameEntry>)
    ensures
        r.deep_view() == spec_parse_blame(raw@),
{
    let input = match decode_utf8_str(raw) {
        Some(s) => s,
        None => {
            let r: Vec<BlameEntry> = Vec::new();
            proof {
                assert(r.deep_view() =~= spec_parse_blame(raw@));
            }
            return r;
        },
    };
    let mut ls = split_on_char(input, '\n');
    proof {
        lemma_split_char_len(input@, '\n');
        assert(ls.deep_view().len() == ls@.len());
    }
    if ls[ls.len() - 1].as_str().is_empty() {
        let ghost before = ls.deep_view();
        let _ = ls.pop();
        proof {
            assert(ls.deep_view() =~= before.drop_last());
        }
    }
    let ghost all_lines = ls.deep_view();
    proof {
        assert(all_lines == lines_of(input@));
    }
    let mut out: Vec<BlameEntry> = Vec::new();
    let mut acc = Acc::new();
    let n = ls.len();
    let mut i: usize = 0;
    proof {
        assert(all_lines.skip(0) =~= all_lines);
        assert(out.deep_view() =~= Seq::<BlameView>::empty());
    }
    while i < n
        invariant
            i <= n,
            n == ls@.len(),
            all_lines == ls.deep_view(),
            all_lines.len() == n,
            blame_scan(all_lines, empty_acc(), Seq::empty()) == blame_scan(
                all_lines.skip(i as int),
                acc@,
                out.deep_view(),
            ),
        decreases n - i,
    {
        let ghost rem = all_lines.skip(i as int);
        let ghost step = blame_line_step(acc@, out.deep_view(), all_lines[i as int]);
        proof {
            assert(rem[0] == all_lines[i as int]);
            assert(rem.skip(1) =~= all_lines.skip(i + 1));
        }
        let line = trim_end_str(ls[i].as_str());
        let lt = line.as_str();
        let nlt = lt.unicode_len();
        if nlt == 0 {
        } else if lt.get_char(0) == '\t' {
        } else if is_sha_header(lt) {
            acc.flush_into(&mut out);
            let parts = split_whitespace_str(lt);
            proof {
                assert(parts.deep_view() == split_ws_spec(lt@));
                assert(parts[0 as int]@ == split_ws_spec(lt@)[0]);
                assert(parts[1 as int]@ == split_ws_spec(lt@)[1]);
                assert(parts[2 as int]@ == split_ws_spec(lt@)[2]);
            }
            acc.sha = parts[0].clone();
            acc.orig_line = match parse_u32(parts[1].as_str()) {
                Some(v) => v,
                None => 0,
            };
            acc.final_line = match parse_u32(parts[2].as_str()) {
                Some(v) => v,
                None => 0,
            };
            acc.num_lines = if parts.len() > 3 {
                proof {
                    assert(parts[3 as int]@ == split_ws_spec(lt@)[3]);
                }
                match parse_u32(parts[3].as_str()) {
                    Some(v) => v,
                    None => 1,
                }
            } else {
                1
            };
            acc.author_name = String::new();
            acc.author_email = String::new();
            acc.author_date = 0;
            acc.committer_name = String::new();
            acc.committer_email = String::new();
            acc.committer_date = 0;
            acc.summary = String::new();
            acc.filename = String::new();
            acc.in_entry = true;
            proof {
                assert(acc@ == header_acc(lt@));
            }
        } else if !acc.in_entry {
        } else if let Some(val) = strip_prefix_str(lt, "author-mail ") {
            acc.author_email = strip_char_ends(val.as_str(), '<', '>');
        } else if let Some(val) = strip_prefix_str(lt, "author-time ") {
            acc.author_date = parse_u64_or_zero(trim_str(val.as_str()).as_str());
        } else if starts_with(lt, "author-tz ") {
        } else if let Some(val) = strip_prefix_str(lt, "author ") {
            acc.author_name = val;
        } else if let Some(val) = strip_prefix_str(lt, "committer-mail ") {
            acc.committer_email = strip_char_ends(val.as_str(), '<', '>');
        } else if let Some(val) = strip_prefix_str(lt, "committer-time ") {
            acc.committer_date = parse_u64_or_zero(trim_str(val.as_str()).as_str());
        } else if starts_with(lt, "committer-tz ") {
        } else if let Some(val) = strip_prefix_str(lt, "committer ") {
            acc.committer_name = val;
        } else if let Some(val) = strip_prefix_str(lt, "summary ") {
            acc.summary = val;
        } else if let Some(val) = strip_prefix_str(lt, "filename ") {
            acc.filename = val;
        }
        proof {
            assert(acc@ == step.0);
            assert(out.deep_view() == step.1);
        }
        i += 1;
    }
    proof {
        assert(all_lines.skip(n as int) =~= Seq::<Seq<char>>::empty());
    }
    acc.flush_into(&mut out);
    out
}

} // verus!
