//! A download request and the engine arguments that carry it out.

use vstd::prelude::*;

use crate::{decimal, text};

verus! {

/// A single download job as requested by the queue.
#[derive(Debug)]
pub struct DownloadRequest {
    pub id: String,
    pub url: String,
    /// "vbest", "v1080" (any `v<height>`), or "audio:mp3" | "audio:m4a" | "audio:opus".
    pub quality: String,
    pub out_dir: String,
}

/// The selector for the best quality: best video and best audio, else a stream that has both.
pub open spec fn best_selector() -> Seq<char> {
    "bv*+ba/b"@
}

/// The selector for a height: best video up to it and best audio, else a stream up to it that
/// has both, else whatever exists.
pub open spec fn height_selector(height: u32) -> Seq<char> {
    "bv*[height<="@ + decimal::decimal(height as nat) + "]+ba/b[height<="@ + decimal::decimal(
        height as nat,
    ) + "]/b"@
}

/// The height that a video quality token asks for, if it asks for one.
pub open spec fn token_height(quality: Seq<char>) -> Option<u32> {
    if text::begins_with(quality, "v"@) {
        decimal::u32_of(quality.subrange(1, quality.len() as int))
    } else {
        None
    }
}

/// The format selector for a video quality token.
pub open spec fn selector(quality: Seq<char>) -> Seq<char> {
    if quality == "vbest"@ {
        best_selector()
    } else {
        match token_height(quality) {
            Some(height) => height_selector(height),
            None => best_selector(),
        }
    }
}

/// The pattern by which the engine reports progress.
pub open spec fn progress_template() -> Seq<char> {
    "download:@@P|%(progress._percent_str)s|%(progress._speed_str)s|%(progress._eta_str)s|%(progress._total_bytes_str)s|%(progress._total_bytes_estimate_str)s"@
}

/// The arguments that every download has.
pub open spec fn common_args(out_dir: Seq<char>) -> Seq<Seq<char>> {
    seq![
        "--no-playlist"@,
        "--no-colors"@,
        "--newline"@,
        "--no-warnings"@,
        "--ignore-config"@,
        "--continue"@,
        "-N"@,
        "4"@,
        "--retries"@,
        "5"@,
        "--fragment-retries"@,
        "10"@,
        "--progress-template"@,
        progress_template(),
        "-P"@,
        out_dir,
        "-o"@,
        "%(title).180B [%(id)s].%(ext)s"@,
    ]
}

/// The arguments that point the engine at a bundled ffmpeg, where there is one.
pub open spec fn ffmpeg_args(ffmpeg_dir: Option<Seq<char>>) -> Seq<Seq<char>> {
    match ffmpeg_dir {
        Some(dir) => seq!["--ffmpeg-location"@, dir],
        None => seq![],
    }
}

/// The arguments that ask for audio in a format, or for video by a selector.
pub open spec fn quality_args(quality: Seq<char>) -> Seq<Seq<char>> {
    if text::begins_with(quality, "audio:"@) {
        seq![
            "-f"@,
            "ba/b"@,
            "-x"@,
            "--audio-format"@,
            quality.subrange("audio:"@.len() as int, quality.len() as int),
            "--audio-quality"@,
            "0"@,
            "--embed-thumbnail"@,
            "--embed-metadata"@,
        ]
    } else {
        seq![
            "-f"@,
            selector(quality),
            "--merge-output-format"@,
            "mp4"@,
            "--embed-metadata"@,
        ]
    }
}

/// The whole argument list of a request.
pub open spec fn args_of(request: DownloadRequest, ffmpeg_dir: Option<Seq<char>>) -> Seq<
    Seq<char>,
> {
    common_args(request.out_dir@) + ffmpeg_args(ffmpeg_dir) + quality_args(request.quality@)
        + seq![request.url@]
}

/// Adds an argument.
pub(crate) fn push_arg(args: &mut Vec<String>, arg: &str)
    ensures
        text::texts(final(args)@) == text::texts(old(args)@).push(arg@),
{
    args.push(arg.to_owned());
    assert(text::texts(args@) =~= text::texts(old(args)@).push(arg@));
}

/// Adds the arguments that every download has.
fn push_common_args(args: &mut Vec<String>, out_dir: &str)
    ensures
        text::texts(final(args)@) == text::texts(old(args)@) + common_args(out_dir@),
{
    push_arg(args, "--no-playlist");
    push_arg(args, "--no-colors");
    push_arg(args, "--newline");
    push_arg(args, "--no-warnings");
    push_arg(args, "--ignore-config");
    // Resume a partially downloaded file instead of restarting it. It is the engine's
    // default, but set here so that a resume is never a re-download.
    push_arg(args, "--continue");
    push_arg(args, "-N");
    push_arg(args, "4");
    push_arg(args, "--retries");
    push_arg(args, "5");
    push_arg(args, "--fragment-retries");
    push_arg(args, "10");
    push_arg(args, "--progress-template");
    push_arg(
        args,
        "download:@@P|%(progress._percent_str)s|%(progress._speed_str)s|%(progress._eta_str)s|%(progress._total_bytes_str)s|%(progress._total_bytes_estimate_str)s",
    );
    push_arg(args, "-P");
    push_arg(args, out_dir);
    push_arg(args, "-o");
    push_arg(args, "%(title).180B [%(id)s].%(ext)s");
    assert(text::texts(args@) =~= text::texts(old(args)@) + common_args(out_dir@));
}

/// Adds the arguments for a quality token.
fn push_quality_args(args: &mut Vec<String>, quality: &str)
    ensures
        text::texts(final(args)@) == text::texts(old(args)@) + quality_args(quality@),
{
    match text::strip_prefix(quality, "audio:") {
        Some(format) => {
            push_arg(args, "-f");
            push_arg(args, "ba/b");
            push_arg(args, "-x");
            push_arg(args, "--audio-format");
            push_arg(args, format.as_str());
            push_arg(args, "--audio-quality");
            push_arg(args, "0");
            push_arg(args, "--embed-thumbnail");
            push_arg(args, "--embed-metadata");
        },
        None => {
            let chosen = video_selector(quality);
            push_arg(args, "-f");
            push_arg(args, chosen.as_str());
            push_arg(args, "--merge-output-format");
            push_arg(args, "mp4");
            push_arg(args, "--embed-metadata");
        },
    }
    assert(text::texts(args@) =~= text::texts(old(args)@) + quality_args(quality@));
}

/// Assembles the full engine argument list for a request. `ffmpeg_dir` is where a bundled
/// ffmpeg was found; without one the engine looks on `PATH`.
pub fn build_args(request: &DownloadRequest, ffmpeg_dir: Option<String>) -> (args: Vec<String>)
    ensures
        text::texts(args@) == args_of(*request, text::optional(ffmpeg_dir)),
{
    let mut args: Vec<String> = Vec::new();
    push_common_args(&mut args, request.out_dir.as_str());
    if let Some(dir) = &ffmpeg_dir {
        push_arg(&mut args, "--ffmpeg-location");
        push_arg(&mut args, dir.as_str());
    }
    assert(text::texts(args@) =~= common_args(request.out_dir@) + ffmpeg_args(
        text::optional(ffmpeg_dir),
    ));
    push_quality_args(&mut args, request.quality.as_str());
    push_arg(&mut args, request.url.as_str());
    assert(text::texts(args@) =~= args_of(*request, text::optional(ffmpeg_dir)));
    args
}

/// Builds the format selector for a video quality token.
pub fn video_selector(quality: &str) -> (chosen: String)
    ensures
        chosen@ == selector(quality@),
{
    proof {
        reveal_strlit("v");
    }
    if text::same_text(quality, "vbest") {
        return "bv*+ba/b".to_owned();
    }
    let height: Option<u32> = match text::strip_prefix(quality, "v") {
        Some(digits) => decimal::parse_u32(digits.as_str()),
        None => None,
    };
    match height {
        Some(height) => {
            let numeral = decimal::decimal_text(height as u64);
            "bv*[height<=".to_owned().concat(numeral.as_str()).concat("]+ba/b[height<=").concat(
                numeral.as_str(),
            ).concat("]/b")
        },
        None => "bv*+ba/b".to_owned(),
    }
}

/// The token `v<height>` selects that height, for every height.
pub proof fn law_height_token_selects_height(height: u32)
    ensures
        token_height("v"@ + decimal::decimal(height as nat)) == Some(height),
        selector("v"@ + decimal::decimal(height as nat)) == height_selector(height),
{
    reveal_strlit("v");
    reveal_strlit("vbest");
    let numeral = decimal::decimal(height as nat);
    let token = "v"@ + numeral;
    decimal::law_numeral_round_trip(height);
    decimal::lemma_decimal(height as nat);
    assert(token.subrange(1, token.len() as int) == numeral);
    assert(token.subrange(0, 1) == "v"@);
    assert(decimal::is_digit(numeral[0]));
    assert(token[1] == numeral[0]);
}

/// Every download resumes what an earlier one left, takes one item only, and names its link
/// last.
pub proof fn law_every_download_resumes(request: DownloadRequest, ffmpeg_dir: Option<Seq<char>>)
    ensures
        args_of(request, ffmpeg_dir).contains("--continue"@),
        args_of(request, ffmpeg_dir).contains("--no-playlist"@),
        args_of(request, ffmpeg_dir).last() == request.url@,
{
    let args = args_of(request, ffmpeg_dir);
    assert(args[5] == "--continue"@);
    assert(args[0] == "--no-playlist"@);
}

/// Two requests for one link, quality and folder get the same arguments: starting an
/// interrupted job again asks for exactly what it asked for before.
pub proof fn law_restart_asks_the_same(
    first: DownloadRequest,
    second: DownloadRequest,
    ffmpeg_dir: Option<Seq<char>>,
)
    requires
        first.url@ == second.url@,
        first.quality@ == second.quality@,
        first.out_dir@ == second.out_dir@,
    ensures
        args_of(first, ffmpeg_dir) == args_of(second, ffmpeg_dir),
{
}

/// Whatever digits a height is written with, the selector bounds the video, and the stream that
/// takes its place, by that very height.
pub proof fn law_selector_bounds_the_height(digits: Seq<char>, height: u32)
    requires
        digits.len() > 0,
        forall|i: int| 0 <= i < digits.len() ==> '0' <= #[trigger] digits[i] <= '9',
        decimal::numeral_value(digits) == height,
    ensures
        selector("v"@ + digits) == "bv*[height<="@ + decimal::decimal(height as nat)
            + "]+ba/b[height<="@ + decimal::decimal(height as nat) + "]/b"@,
        selector("v+"@ + digits) == selector("v"@ + digits),
{
    reveal_strlit("v");
    reveal_strlit("v+");
    reveal_strlit("vbest");
    decimal::law_digits_are_read(digits);
    let token = "v"@ + digits;
    assert(token.subrange(0, 1) =~= "v"@);
    assert(token.subrange(1, token.len() as int) =~= digits);
    assert(token[1] == digits[0]);
    let signed = "v+"@ + digits;
    assert(signed.subrange(0, 1) =~= "v"@);
    assert(signed.subrange(1, signed.len() as int) =~= seq!['+'] + digits);
    assert(signed[1] == '+');
}

/// The selector of a height holds its numeral and no other: different heights are asked for
/// differently.
pub proof fn law_selectors_differ(a: u32, b: u32)
    requires
        a != b,
    ensures
        selector("v"@ + decimal::decimal(a as nat)) != selector("v"@ + decimal::decimal(b as nat)),
{
    law_height_is_read_off_selector(a);
    law_height_is_read_off_selector(b);
}

/// The height can be read off the selector of its token: it is the number from the mark
/// `[height<=` to the next bracket.
pub proof fn law_height_is_read_off_selector(height: u32)
    ensures
        ({
            let s = selector("v"@ + decimal::decimal(height as nat));
            decimal::u32_of(text::before_text(s.subrange(12, s.len() as int), "]"@)) == Some(height)
        }),
{
    let numeral = decimal::decimal(height as nat);
    decimal::law_number_is_written(height as nat);
    decimal::law_numeral_round_trip(height);
    assert forall|i: int| 0 <= i < numeral.len() implies '0' <= #[trigger] numeral[i] <= '9' by {
        assert(decimal::is_digit(numeral[i]));
    }
    law_selector_bounds_the_height(numeral, height);
    reveal_strlit("bv*[height<=");
    reveal_strlit("]+ba/b[height<=");
    reveal_strlit("]");
    reveal_strlit("]/b");
    let s = selector("v"@ + numeral);
    let tail = s.subrange(12, s.len() as int);
    let after = "+ba/b[height<="@ + numeral + "]/b"@;
    reveal_strlit("+ba/b[height<=");
    assert(tail =~= numeral + "]"@ + after);
    assert forall|j: int| 0 <= j < numeral.len() implies !text::occurs_at(
        numeral + "]"@ + after,
        "]"@,
        j,
    ) by {
        let all = numeral + "]"@ + after;
        assert(all[j] == numeral[j]);
        if text::occurs_at(all, "]"@, j) {
            assert(all.subrange(j, j + 1)[0] == "]"@[0]);
        }
    }
    text::law_before_text(numeral, "]"@, after);
}

/// Every token that names no height asks for the best there is.
pub proof fn law_other_tokens_ask_for_the_best(quality: Seq<char>)
    requires
        quality == "vbest"@ || quality.len() == 0 || quality[0] != 'v' || decimal::u32_of(
            quality.subrange(1, quality.len() as int),
        ) is None,
    ensures
        selector(quality) == "bv*+ba/b"@,
{
    reveal_strlit("v");
    if text::begins_with(quality, "v"@) {
        assert(quality.subrange(0, 1)[0] == quality[0]);
    }
}

/// A request for audio names the format that stands after `audio:`, right after
/// `--audio-format`, and takes the best audio at the best quality.
pub proof fn law_audio_format_is_asked_for(
    request: DownloadRequest,
    ffmpeg_dir: Option<Seq<char>>,
    format: Seq<char>,
)
    requires
        request.quality@ == "audio:"@ + format,
    ensures
        ({
            let args = args_of(request, ffmpeg_dir);
            args.len() >= 28 && args.subrange(args.len() - 10, args.len() as int) == seq![
                "-f"@,
                "ba/b"@,
                "-x"@,
                "--audio-format"@,
                format,
                "--audio-quality"@,
                "0"@,
                "--embed-thumbnail"@,
                "--embed-metadata"@,
                request.url@,
            ]
        }),
{
    let quality = request.quality@;
    let mark = "audio:"@;
    assert(quality.subrange(0, mark.len() as int) =~= mark);
    assert(quality.subrange(mark.len() as int, quality.len() as int) =~= format);
    let args = args_of(request, ffmpeg_dir);
    assert(args.subrange(args.len() - 10, args.len() as int) =~= quality_args(quality) + seq![
        request.url@,
    ]);
}

/// Requests that differ in the audio format only get different arguments.
pub proof fn law_audio_formats_differ(
    first: DownloadRequest,
    second: DownloadRequest,
    ffmpeg_dir: Option<Seq<char>>,
    one: Seq<char>,
    other: Seq<char>,
)
    requires
        first.quality@ == "audio:"@ + one,
        second.quality@ == "audio:"@ + other,
        one != other,
    ensures
        args_of(first, ffmpeg_dir) != args_of(second, ffmpeg_dir),
{
    law_audio_format_is_asked_for(first, ffmpeg_dir, one);
    law_audio_format_is_asked_for(second, ffmpeg_dir, other);
    let a = args_of(first, ffmpeg_dir);
    let b = args_of(second, ffmpeg_dir);
    assert(a.subrange(a.len() - 10, a.len() as int)[4] == one);
    assert(b.subrange(b.len() - 10, b.len() as int)[4] == other);
}

/// A request for video names the selector of its token, and has the streams merged into `mp4`.
pub proof fn law_video_is_asked_for(request: DownloadRequest, ffmpeg_dir: Option<Seq<char>>)
    requires
        forall|format: Seq<char>| request.quality@ != #[trigger] ("audio:"@ + format),
    ensures
        ({
            let args = args_of(request, ffmpeg_dir);
            args.len() >= 24 && args.subrange(args.len() - 6, args.len() as int) == seq![
                "-f"@,
                selector(request.quality@),
                "--merge-output-format"@,
                "mp4"@,
                "--embed-metadata"@,
                request.url@,
            ]
        }),
{
    text::law_begins_with(request.quality@, "audio:"@);
    let args = args_of(request, ffmpeg_dir);
    assert(args.subrange(args.len() - 6, args.len() as int) =~= quality_args(request.quality@)
        + seq![request.url@]);
}

/// Every download takes one item, resumes what is there, retries, reports progress by the
/// pattern that is read, and writes into the folder asked for under the title and the id; a
/// bundled ffmpeg is named where there is one, and nothing else is asked.
pub proof fn law_every_download_is_asked_alike(
    request: DownloadRequest,
    ffmpeg_dir: Option<Seq<char>>,
)
    ensures
        ({
            let args = args_of(request, ffmpeg_dir);
            &&& args.subrange(0, 18) == seq![
                "--no-playlist"@,
                "--no-colors"@,
                "--newline"@,
                "--no-warnings"@,
                "--ignore-config"@,
                "--continue"@,
                "-N"@,
                "4"@,
                "--retries"@,
                "5"@,
                "--fragment-retries"@,
                "10"@,
                "--progress-template"@,
                "download:@@P|%(progress._percent_str)s|%(progress._speed_str)s|%(progress._eta_str)s|%(progress._total_bytes_str)s|%(progress._total_bytes_estimate_str)s"@,
                "-P"@,
                request.out_dir@,
                "-o"@,
                "%(title).180B [%(id)s].%(ext)s"@,
            ]
            &&& match ffmpeg_dir {
                Some(dir) => args[18] == "--ffmpeg-location"@ && args[19] == dir && args[20]
                    == "-f"@,
                None => args[18] == "-f"@,
            }
            &&& args.len() == 18 + (if ffmpeg_dir is Some {
                2int
            } else {
                0
            }) + (if exists|format: Seq<char>| request.quality@ == #[trigger] ("audio:"@ + format) {
                10int
            } else {
                6
            })
        }),
{
    let args = args_of(request, ffmpeg_dir);
    text::law_begins_with(request.quality@, "audio:"@);
    assert(args.subrange(0, 18) =~= common_args(request.out_dir@));
}

} // verus!
