//! FFmpeg invocation: the command line for re-encoding a video, reading the download size from
//! HTTP headers, and the message for a failed run.

use vstd::prelude::*;
use crate::lines::{
    decimal, digits_value, is_plain_number, law_decimal_injective, law_decimal_reads_back, lines_of,
    parse_u64, parse_u64_spec, split_lines, to_decimal, trim_chars, trimmed,
};
use crate::media::{crf_of, CompressionSettings};
use crate::text::{has_word_prefix, starts_with_word, string_from_chars};

verus! {

/// Index of the first `:` at or after `i`, or the length when there is none.
pub open spec fn next_colon(s: Seq<char>, i: int) -> int
    decreases s.len() - i,
{
    if i >= s.len() {
        s.len() as int
    } else if s[i] == ':' {
        i
    } else {
        next_colon(s, i + 1)
    }
}

proof fn lemma_next_colon_bounds(s: Seq<char>, i: int)
    requires
        0 <= i <= s.len(),
    ensures
        i <= next_colon(s, i) <= s.len(),
    decreases s.len() - i,
{
    if i < s.len() && s[i] != ':' {
        lemma_next_colon_bounds(s, i + 1);
    }
}

pub open spec fn content_length_prefix() -> Seq<char> {
    seq!['c', 'o', 'n', 't', 'e', 'n', 't', '-', 'l', 'e', 'n', 'g', 't', 'h', ':']
}

/// The text between the first and the second `:` of a line (or the end of the line).
pub open spec fn second_field(l: Seq<char>) -> Seq<char> {
    let a = next_colon(l, 0);
    l.subrange(a + 1, next_colon(l, a + 1))
}

/// The size a header line announces: a `Content-Length:` line (any ASCII case) whose value,
/// trimmed, is a decimal number.
pub open spec fn header_length(l: Seq<char>) -> Option<u64> {
    if starts_with_word(l, content_length_prefix()) {
        parse_u64_spec(trimmed(second_field(l)))
    } else {
        None
    }
}

/// The first size announced by any of the lines.
pub open spec fn content_length_in(ls: Seq<Seq<char>>) -> Option<u64>
    decreases ls.len(),
{
    if ls.len() == 0 {
        None
    } else {
        match header_length(ls[0]) {
            Some(v) => Some(v),
            None => content_length_in(ls.drop_first()),
        }
    }
}

/// A status line that opens a response (`HTTP/...`, any ASCII case).
pub open spec fn starts_response(l: Seq<char>) -> bool {
    starts_with_word(l, seq!['h', 't', 't', 'p', '/'])
}

/// Index of the last status line among the first `n` lines (0 when there is none).
pub open spec fn last_response_before(ls: Seq<Seq<char>>, n: int) -> int
    decreases n,
{
    if n <= 0 {
        0
    } else if starts_response(ls[n - 1]) {
        n - 1
    } else {
        last_response_before(ls, n - 1)
    }
}

/// The lines of the last response in headers printed while following redirects: from the last
/// status line on (all lines when there is none).
pub open spec fn last_response(ls: Seq<Seq<char>>) -> Seq<Seq<char>> {
    ls.skip(last_response_before(ls, ls.len() as int))
}

/// Reads the download size from HTTP response headers (as printed by `curl -sI -L`): the first
/// length announced in the last response, the one for the file that is finally fetched.
pub fn parse_content_length(headers: &str) -> (r: Option<u64>)
    ensures
        r == content_length_in(last_response(lines_of(headers@))),
{
    let lines = split_lines(headers);
    let ghost ls = lines@.map_values(|l: Vec<char>| l@);
    let mut n: usize = lines.len();
    while n > 0 && !has_word_prefix(&lines[n - 1], &['h', 't', 't', 'p', '/'])
        invariant
            n <= lines@.len(),
            ls == lines@.map_values(|l: Vec<char>| l@),
            last_response_before(ls, ls.len() as int) == last_response_before(ls, n as int),
        decreases n,
    {
        assert(ls[n - 1] == lines@[n - 1]@);
        n = n - 1;
    }
    let start: usize = if n > 0 {
        n - 1
    } else {
        0
    };
    proof {
        if n > 0 {
            assert(ls[n - 1] == lines@[n - 1]@);
        }
    }
    assert(last_response_before(ls, ls.len() as int) == start);
    let mut i: usize = start;
    while i < lines.len()
        invariant
            ls == lines@.map_values(|l: Vec<char>| l@),
            ls == lines_of(headers@),
            start <= i <= lines@.len(),
            last_response_before(ls, ls.len() as int) == start,
            content_length_in(ls.skip(start as int)) == content_length_in(ls.skip(i as int)),
        decreases lines@.len() - i,
    {
        let l = &lines[i];
        assert(ls.skip(i as int)[0] == l@);
        assert(ls.skip(i as int).drop_first() =~= ls.skip(i + 1));
        if has_word_prefix(l, &['c', 'o', 'n', 't', 'e', 'n', 't', '-', 'l', 'e', 'n', 'g', 't', 'h', ':']) {
            let mut a: usize = 0;
            assert(crate::text::lower_seq(l@.take(15))[14] == ':');
            assert(l@[14] == ':');
            while a < l.len() && l[a] != ':'
                invariant
                    l@.len() >= 15,
                    l@[14] == ':',
                    a <= 14,
                    a <= l@.len(),
                    next_colon(l@, 0) == next_colon(l@, a as int),
                decreases l@.len() - a,
            {
                a = a + 1;
            }
            if a < l.len() {
                let mut b: usize = a + 1;
                while b < l.len() && l[b] != ':'
                    invariant
                        a + 1 <= b <= l@.len(),
                        next_colon(l@, a + 1) == next_colon(l@, b as int),
                    decreases l@.len() - b,
                {
                    b = b + 1;
                }
                let mut field: Vec<char> = Vec::new();
                let mut k: usize = a + 1;
                while k < b
                    invariant
                        a + 1 <= k <= b,
                        b <= l@.len(),
                        field@ == l@.subrange(a + 1, k as int),
                    decreases b - k,
                {
                    field.push(l[k]);
                    assert(field@ =~= l@.subrange(a + 1, k + 1));
                    k = k + 1;
                }
                assert(field@ == second_field(l@));
                let t = trim_chars(field.as_slice());
                if let Some(v) = parse_u64(t.as_slice()) {
                    return Some(v);
                }
            }
        }
        i = i + 1;
    }
    None
}

/// The FFmpeg arguments for re-encoding `input` into `output` with H.264 at the settings' CRF,
/// AAC audio at 128 kb/s, the index moved to the front, and, when a height limit is set, a scale
/// filter that keeps the width even and the height at most the limit.
pub open spec fn ffmpeg_args_spec(input: Seq<char>, output: Seq<char>, s: CompressionSettings) -> Seq<Seq<char>> {
    seq![
        "-y"@,
        "-i"@,
        input,
        "-c:v"@,
        "libx264"@,
        "-crf"@,
        decimal(crf_of(s.video_quality) as nat),
        "-preset"@,
        "medium"@,
        "-c:a"@,
        "aac"@,
        "-b:a"@,
        "128k"@,
        "-movflags"@,
        "+faststart"@,
    ] + (if s.video_max_resolution_enabled {
        seq!["-vf"@, "scale=-2:'min(ih,"@ + decimal(s.video_max_height as nat) + ")'"@]
    } else {
        Seq::empty()
    }) + seq![output]
}

/// With the height limit on, the arguments end in `-vf`, a scale filter
/// `scale=-2:'min(ih,H)'` whose `H` is the configured `video_max_height` written as a plain
/// decimal number, and the output; with it off they end in the output right after
/// `+faststart`.
pub proof fn law_scale_filter_names_height(input: Seq<char>, output: Seq<char>, s: CompressionSettings)
    ensures
        s.video_max_resolution_enabled ==> ({
            let a = ffmpeg_args_spec(input, output, s);
            &&& a.len() == 18
            &&& a[14] == "+faststart"@
            &&& a[15] == "-vf"@
            &&& a[17] == output
            &&& exists|d: Seq<char>|
                #![trigger is_plain_number(d)]
                is_plain_number(d) && digits_value(d) == s.video_max_height as int && a[16]
                    == "scale=-2:'min(ih,"@ + d + ")'"@
        }),
        !s.video_max_resolution_enabled ==> ({
            let a = ffmpeg_args_spec(input, output, s);
            &&& a.len() == 16
            &&& a[14] == "+faststart"@
            &&& a[15] == output
        }),
{
    let h = s.video_max_height as nat;
    law_decimal_reads_back(h);
    assert(is_plain_number(decimal(h)));
}

/// Two height limits give two different scale filters.
pub proof fn law_scale_filter_differs(input: Seq<char>, output: Seq<char>, s1: CompressionSettings, s2: CompressionSettings)
    requires
        s1.video_max_resolution_enabled,
        s2.video_max_resolution_enabled,
        s1.video_max_height != s2.video_max_height,
    ensures
        ffmpeg_args_spec(input, output, s1)[16] != ffmpeg_args_spec(input, output, s2)[16],
{
    let p = "scale=-2:'min(ih,"@;
    let q = ")'"@;
    let d1 = decimal(s1.video_max_height as nat);
    let d2 = decimal(s2.video_max_height as nat);
    law_decimal_injective(s1.video_max_height as nat, s2.video_max_height as nat);
    law_scale_filter_names_height(input, output, s1);
    law_scale_filter_names_height(input, output, s2);
    assert(ffmpeg_args_spec(input, output, s1)[16] == p + d1 + q);
    assert(ffmpeg_args_spec(input, output, s2)[16] == p + d2 + q);
    if p + d1 + q == p + d2 + q {
        assert(d1.len() == d2.len());
        assert((p + d1 + q).subrange(p.len() as int, (p.len() + d1.len()) as int) =~= d1);
        assert((p + d2 + q).subrange(p.len() as int, (p.len() + d2.len()) as int) =~= d2);
    }
}

/// Command-line arguments for FFmpeg.
pub fn ffmpeg_args(input: &str, output: &str, settings: &CompressionSettings) -> (args: Vec<String>)
    ensures
        args@.map_values(|a: String| a@) == ffmpeg_args_spec(input@, output@, *settings),
{
    let mut args: Vec<String> = Vec::new();
    args.push(String::from_str("-y"));
    args.push(String::from_str("-i"));
    args.push(String::from_str(input));
    args.push(String::from_str("-c:v"));
    args.push(String::from_str("libx264"));
    args.push(String::from_str("-crf"));
    let crf = to_decimal(settings.video_crf() as u64);
    args.push(string_from_chars(crf.as_slice()));
    args.push(String::from_str("-preset"));
    args.push(String::from_str("medium"));
    args.push(String::from_str("-c:a"));
    args.push(String::from_str("aac"));
    args.push(String::from_str("-b:a"));
    args.push(String::from_str("128k"));
    args.push(String::from_str("-movflags"));
    args.push(String::from_str("+faststart"));
    if settings.video_max_resolution_enabled {
        args.push(String::from_str("-vf"));
        let mut filter = String::from_str("scale=-2:'min(ih,");
        let h = to_decimal(settings.video_max_height as u64);
        let hs = string_from_chars(h.as_slice());
        filter.append(hs.as_str());
        filter.append(")'");
        args.push(filter);
    }
    args.push(String::from_str(output));
    assert(args@.map_values(|a: String| a@) =~= ffmpeg_args_spec(input@, output@, *settings));
    args
}

/// The last line of a text, if it has any.
pub open spec fn last_line(s: Seq<char>) -> Option<Seq<char>> {
    if lines_of(s).len() == 0 {
        None
    } else {
        Some(lines_of(s).last())
    }
}

/// The error reported for a failed FFmpeg run: its last line of diagnostics.
pub fn ffmpeg_failure_message(stderr: &str) -> (m: String)
    ensures
        m@ == "FFmpeg failed: "@ + match last_line(stderr@) {
            Some(l) => l,
            None => "unknown error"@,
        },
{
    let lines = split_lines(stderr);
    let ghost ls = lines@.map_values(|l: Vec<char>| l@);
    let mut m = String::from_str("FFmpeg failed: ");
    if lines.len() > 0 {
        let last = string_from_chars(lines[lines.len() - 1].as_slice());
        assert(ls.last() == lines@[lines@.len() - 1]@);
        m.append(last.as_str());
    } else {
        m.append("unknown error");
    }
    m
}

/// The decimal text of a signed number, with a leading `-` when it is negative.
pub open spec fn signed_decimal(n: int) -> Seq<char> {
    if n < 0 {
        seq!['-'] + decimal((-n) as nat)
    } else {
        decimal(n as nat)
    }
}

/// The error reported when `curl` fails to download FFmpeg: its exit code (-1 when it has
/// none) and its diagnostics, trimmed.
pub fn curl_failure_message(code: Option<i32>, stderr: &str) -> (m: String)
    ensures
        m@ == "curl download failed (exit: "@ + signed_decimal(
            match code {
                Some(c) => c as int,
                None => -1,
            },
        ) + "): "@ + trimmed(stderr@),
{
    let c: i64 = match code {
        Some(c) => c as i64,
        None => -1,
    };
    let mut m = String::from_str("curl download failed (exit: ");
    if c < 0 {
        m.append("-");
        let digits = to_decimal((0 - c) as u64);
        let d = string_from_chars(digits.as_slice());
        m.append(d.as_str());
        assert(seq!['-'] == "-"@) by {
            reveal_strlit("-");
        }
    } else {
        let digits = to_decimal(c as u64);
        let d = string_from_chars(digits.as_slice());
        m.append(d.as_str());
    }
    m.append("): ");
    let chars = crate::text::chars_of(stderr);
    let t = trim_chars(chars.as_slice());
    let ts = string_from_chars(t.as_slice());
    m.append(ts.as_str());
    m
}

/// The size that download progress is measured against: the announced size where one was
/// announced, otherwise the size that arrived.
pub fn download_total(announced: u64, arrived: u64) -> (r: u64)
    ensures
        r == if announced > 0 {
            announced
        } else {
            arrived
        },
{
    if announced > 0 {
        announced
    } else {
        arrived
    }
}

} // verus!
