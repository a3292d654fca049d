//! Previewing a link: from the engine's JSON dump to what the preview card shows.

use serde_json::Value;
use vstd::prelude::*;

use crate::double::{self, Double};
use crate::json::{self, JsonTree};
use crate::{decimal, failure, request, text};

verus! {

/// Everything the preview card needs about a single link, distilled from the engine's verbose
/// JSON dump.
#[derive(Debug)]
pub struct MediaInfo {
    pub title: String,
    pub uploader: String,
    pub thumbnail: String,
    /// Duration in seconds; 0 when the source does not report one (e.g. lives).
    pub duration: Double,
    /// The extractor key, e.g. "youtube" or "tiktok".
    pub extractor: String,
    pub is_live: bool,
    pub qualities: Vec<QualityOption>,
}

/// One selectable video quality. Ids are stable tokens ("vbest", "v1080") rather than raw
/// format ids, which are noisy and vary by site.
#[derive(Debug)]
pub struct QualityOption {
    pub id: String,
    pub label: String,
    pub height: u32,
    /// A short human note such as "mp4 · ~124 MB". Sizes carry a leading `~` because video
    /// streams may exclude audio, so the merged size is larger.
    pub note: String,
}

/// A format with a video track of known height: the file size and the container it comes in.
#[derive(Debug)]
pub struct VideoFormat {
    pub height: u32,
    pub filesize: Option<Double>,
    pub ext: String,
}

/// The model of a `MediaInfo`.
#[verifier::ext_equal]
pub struct MediaView {
    pub title: Seq<char>,
    pub uploader: Seq<char>,
    pub thumbnail: Seq<char>,
    pub duration: Double,
    pub extractor: Seq<char>,
    pub is_live: bool,
    pub qualities: Seq<QualityView>,
}

/// The model of a `QualityOption`.
#[verifier::ext_equal]
pub struct QualityView {
    pub id: Seq<char>,
    pub label: Seq<char>,
    pub height: u32,
    pub note: Seq<char>,
}

/// The model of a `VideoFormat`.
#[verifier::ext_equal]
pub struct FormatView {
    pub height: u32,
    pub filesize: Option<Double>,
    pub ext: Seq<char>,
}

impl View for MediaInfo {
    type V = MediaView;

    open spec fn view(&self) -> MediaView {
        MediaView {
            title: self.title@,
            uploader: self.uploader@,
            thumbnail: self.thumbnail@,
            duration: self.duration,
            extractor: self.extractor@,
            is_live: self.is_live,
            qualities: qualities_view(self.qualities@),
        }
    }
}

impl View for QualityOption {
    type V = QualityView;

    open spec fn view(&self) -> QualityView {
        QualityView {
            id: self.id@,
            label: self.label@,
            height: self.height,
            note: self.note@,
        }
    }
}

impl View for VideoFormat {
    type V = FormatView;

    open spec fn view(&self) -> FormatView {
        FormatView { height: self.height, filesize: self.filesize, ext: self.ext@ }
    }
}

/// The models of a list of qualities.
pub open spec fn qualities_view(list: Seq<QualityOption>) -> Seq<QualityView> {
    list.map_values(|q: QualityOption| q@)
}

/// The models of a list of formats.
pub open spec fn formats_view(list: Seq<VideoFormat>) -> Seq<FormatView> {
    list.map_values(|f: VideoFormat| f@)
}

/// A text, or another where there is none.
pub open spec fn text_or(found: Option<Seq<char>>, otherwise: Seq<char>) -> Seq<char> {
    match found {
        Some(s) => s,
        None => otherwise,
    }
}

/// A size, or zero where it is unknown.
pub open spec fn size_or_zero(size: Option<Double>) -> Double {
    match size {
        Some(d) => d,
        None => Double { bits: 0 },
    }
}

/// What an entry of the dump's `formats` says of itself, as far as it is read.
#[derive(Debug)]
pub struct FormatFields {
    pub vcodec: Option<String>,
    pub height: Option<u64>,
    pub filesize: Option<Double>,
    pub filesize_approx: Option<Double>,
    pub ext: Option<String>,
}

/// The model of `FormatFields`.
#[verifier::ext_equal]
pub struct FormatFieldsView {
    pub vcodec: Option<Seq<char>>,
    pub height: Option<u64>,
    pub filesize: Option<Double>,
    pub filesize_approx: Option<Double>,
    pub ext: Option<Seq<char>>,
}

impl View for FormatFields {
    type V = FormatFieldsView;

    open spec fn view(&self) -> FormatFieldsView {
        FormatFieldsView {
            vcodec: text::optional(self.vcodec),
            height: self.height,
            filesize: self.filesize,
            filesize_approx: self.filesize_approx,
            ext: text::optional(self.ext),
        }
    }
}

/// The fields of an entry of the dump's `formats`.
pub open spec fn format_fields(entry: JsonTree) -> FormatFieldsView {
    FormatFieldsView {
        vcodec: entry.field_text("vcodec"@),
        height: match entry.field("height"@) {
            Some(value) => value.as_unsigned(),
            None => None,
        },
        filesize: entry.field_number("filesize"@),
        filesize_approx: entry.field_number("filesize_approx"@),
        ext: entry.field_text("ext"@),
    }
}

/// The video format that fields describe. Audio-only formats, and those without a height,
/// describe none. Of a height, the lowest 32 bits count.
pub open spec fn format_from(fields: FormatFieldsView) -> Option<FormatView> {
    if fields.vcodec == Some("none"@) {
        None
    } else {
        match fields.height {
            Some(height) => Some(
                FormatView {
                    height: (height % 0x1_0000_0000) as u32,
                    filesize: match fields.filesize {
                        Some(size) => Some(size),
                        None => fields.filesize_approx,
                    },
                    ext: text_or(fields.ext, "mp4"@),
                },
            ),
            None => None,
        }
    }
}

/// What an entry of the dump's `formats` says of a video format.
pub open spec fn format_of(entry: JsonTree) -> Option<FormatView> {
    format_from(format_fields(entry))
}

/// The video formats among the entries, in their order.
pub open spec fn formats_of(entries: Seq<JsonTree>) -> Seq<FormatView>
    decreases entries.len(),
{
    if entries.len() == 0 {
        seq![]
    } else {
        let earlier = formats_of(entries.drop_last());
        match format_of(entries.last()) {
            Some(format) => earlier.push(format),
            None => earlier,
        }
    }
}

/// The video formats of a dump.
pub open spec fn dump_formats(dump: JsonTree) -> Seq<FormatView> {
    match dump.field("formats"@) {
        Some(value) => match value.as_items() {
            Some(entries) => formats_of(entries),
            None => seq![],
        },
        None => seq![],
    }
}

/// Of two formats of one height, the one to keep: the earlier, unless the later is larger.
pub open spec fn larger(kept: FormatView, format: FormatView) -> FormatView {
    if size_or_zero(format.filesize).above(size_or_zero(kept.filesize)) {
        format
    } else {
        kept
    }
}

/// A table of heights, the greatest first, with one more format entered.
pub open spec fn entered(table: Seq<FormatView>, format: FormatView) -> Seq<FormatView>
    decreases table.len(),
{
    if table.len() == 0 || table[0].height < format.height {
        seq![format] + table
    } else if table[0].height == format.height {
        table.update(0, larger(table[0], format))
    } else {
        seq![table[0]] + entered(table.drop_first(), format)
    }
}

/// The table of the heights that formats offer, the greatest first, with the largest known
/// size at each.
pub open spec fn heights_of(formats: Seq<FormatView>) -> Seq<FormatView>
    decreases formats.len(),
{
    if formats.len() == 0 {
        seq![]
    } else {
        entered(heights_of(formats.drop_last()), formats.last())
    }
}

/// The option to take the best there is.
pub open spec fn best_option() -> QualityView {
    QualityView { id: "vbest"@, label: "Best available"@, height: u32::MAX, note: ""@ }
}

/// The option for a height.
pub open spec fn height_option(height: u32, note: Seq<char>) -> QualityView {
    QualityView {
        id: "v"@ + decimal::decimal(height as nat),
        label: decimal::decimal(height as nat) + "p"@,
        height,
        note,
    }
}

/// The note on a format: its container, and its size where that is known.
pub open spec fn note_of(format: FormatView) -> Seq<char> {
    match format.filesize {
        Some(size) => format.ext + " · ~"@ + double::size_text(size),
        None => format.ext,
    }
}

/// The standard ladder of heights.
pub open spec fn ladder() -> Seq<QualityView> {
    seq![
        height_option(1080, ""@),
        height_option(720, ""@),
        height_option(480, ""@),
        height_option(360, ""@),
    ]
}

/// The quality menu for a table of heights: the best there is, then every height of the table;
/// the standard ladder where the table is empty.
pub open spec fn menu(table: Seq<FormatView>) -> Seq<QualityView> {
    if table.len() == 0 {
        seq![best_option()] + ladder()
    } else {
        seq![best_option()] + table.map_values(
            |format: FormatView| height_option(format.height, note_of(format)),
        )
    }
}

/// The quality menu of a dump.
pub open spec fn dump_menu(dump: JsonTree) -> Seq<QualityView> {
    menu(heights_of(dump_formats(dump)))
}

/// What a dump says of a link, as far as it is read, with the video formats in their order.
#[derive(Debug)]
pub struct MediaFields {
    pub title: Option<String>,
    pub uploader: Option<String>,
    pub thumbnail: Option<String>,
    pub duration: Option<Double>,
    pub extractor: Option<String>,
    pub is_live: Option<bool>,
    pub formats: Vec<VideoFormat>,
}

/// The model of `MediaFields`.
#[verifier::ext_equal]
pub struct MediaFieldsView {
    pub title: Option<Seq<char>>,
    pub uploader: Option<Seq<char>>,
    pub thumbnail: Option<Seq<char>>,
    pub duration: Option<Double>,
    pub extractor: Option<Seq<char>>,
    pub is_live: Option<bool>,
    pub formats: Seq<FormatView>,
}

impl View for MediaFields {
    type V = MediaFieldsView;

    open spec fn view(&self) -> MediaFieldsView {
        MediaFieldsView {
            title: text::optional(self.title),
            uploader: text::optional(self.uploader),
            thumbnail: text::optional(self.thumbnail),
            duration: self.duration,
            extractor: text::optional(self.extractor),
            is_live: self.is_live,
            formats: formats_view(self.formats@),
        }
    }
}

/// The fields of a dump.
pub open spec fn media_fields(dump: JsonTree) -> MediaFieldsView {
    MediaFieldsView {
        title: dump.field_text("title"@),
        uploader: dump.either_text("uploader"@, "channel"@),
        thumbnail: dump.field_text("thumbnail"@),
        duration: dump.field_number("duration"@),
        extractor: dump.either_text("extractor_key"@, "extractor"@),
        is_live: match dump.field("is_live"@) {
            Some(value) => value.as_flag(),
            None => None,
        },
        formats: dump_formats(dump),
    }
}

/// What the preview card shows for the fields of a dump, with defaults for what is missing.
pub open spec fn media_from(fields: MediaFieldsView) -> MediaView {
    MediaView {
        title: text_or(fields.title, "Untitled"@),
        uploader: text_or(fields.uploader, ""@),
        thumbnail: text_or(fields.thumbnail, ""@),
        duration: size_or_zero(fields.duration),
        extractor: text_or(fields.extractor, ""@),
        is_live: fields.is_live == Some(true),
        qualities: menu(heights_of(fields.formats)),
    }
}

/// What the preview card shows of a dump.
pub open spec fn media_of(dump: JsonTree) -> MediaView {
    media_from(media_fields(dump))
}

/// A string, or another where there is none.
fn string_or(found: Option<String>, otherwise: &str) -> (s: String)
    ensures
        s@ == text_or(text::optional(found), otherwise@),
{
    match found {
        Some(s) => s,
        None => otherwise.to_owned(),
    }
}

/// The video format that fields describe, if they describe one.
pub fn video_format(fields: FormatFields) -> (format: Option<VideoFormat>)
    ensures
        match format {
            Some(f) => format_from(fields@) == Some(f@),
            None => format_from(fields@) is None,
        },
{
    // Audio-only formats carry no video track; skip them.
    if let Some(codec) = &fields.vcodec {
        if text::same_text(codec.as_str(), "none") {
            return None;
        }
    }
    match fields.height {
        Some(height) => {
            let filesize: Option<Double> = match fields.filesize {
                Some(size) => Some(size),
                None => fields.filesize_approx,
            };
            let ext = string_or(fields.ext, "mp4");
            Some(VideoFormat { height: (height % 0x1_0000_0000) as u32, filesize, ext })
        },
        None => None,
    }
}

/// Reads one entry of the dump's `formats`.
pub fn read_format(entry: &Value) -> (format: Option<VideoFormat>)
    ensures
        match format {
            Some(f) => format_of(json::json_tree(*entry)) == Some(f@),
            None => format_of(json::json_tree(*entry)) is None,
        },
{
    let height: Option<u64> = match json::get(entry, "height") {
        Some(value) => value.as_u64(),
        None => None,
    };
    let fields = FormatFields {
        vcodec: json::get_text(entry, "vcodec"),
        height,
        filesize: json::get_number(entry, "filesize"),
        filesize_approx: json::get_number(entry, "filesize_approx"),
        ext: json::get_text(entry, "ext"),
    };
    assert(fields@ =~= format_fields(json::json_tree(*entry)));
    video_format(fields)
}

/// Reads the video formats of a dump.
pub fn read_formats(dump: &Value) -> (formats: Vec<VideoFormat>)
    ensures
        formats_view(formats@) == dump_formats(json::json_tree(*dump)),
{
    let mut formats: Vec<VideoFormat> = Vec::new();
    assert(formats_view(formats@) =~= Seq::<FormatView>::empty());
    let entries: &Vec<Value> = match json::get(dump, "formats") {
        Some(value) => match value.as_array() {
            Some(entries) => entries,
            None => return formats,
        },
        None => return formats,
    };
    let ghost all = json::trees(entries@);
    assert(all.subrange(0, 0) =~= Seq::<JsonTree>::empty());
    let mut i: usize = 0;
    while i < entries.len()
        invariant
            i <= entries.len(),
            all == json::trees(entries@),
            formats_view(formats@) == formats_of(all.subrange(0, i as int)),
        decreases entries.len() - i,
    {
        let ghost seen = formats_view(formats@);
        proof {
            assert(all.subrange(0, i + 1).drop_last() == all.subrange(0, i as int));
            assert(all.subrange(0, i + 1).last() == json::json_tree(entries@[i as int]));
        }
        if let Some(format) = read_format(&entries[i]) {
            formats.push(format);
            assert(formats_view(formats@) =~= seen.push(format@));
        }
        i = i + 1;
    }
    assert(all.subrange(0, all.len() as int) == all);
    formats
}

proof fn lemma_entered_later(table: Seq<FormatView>, format: FormatView, at: int)
    requires
        0 <= at <= table.len(),
        forall|j: int| 0 <= j < at ==> (#[trigger] table[j]).height > format.height,
    ensures
        entered(table, format) == table.subrange(0, at) + entered(
            table.subrange(at, table.len() as int),
            format,
        ),
    decreases at,
{
    if at == 0 {
        assert(table.subrange(0, table.len() as int) == table);
        assert(table.subrange(0, 0) + entered(table, format) == entered(table, format));
    } else {
        let rest = table.drop_first();
        assert forall|j: int| 0 <= j < at - 1 implies (#[trigger] rest[j]).height
            > format.height by {
            assert(rest[j] == table[j + 1]);
        }
        lemma_entered_later(rest, format, at - 1);
        assert(rest.subrange(at - 1, rest.len() as int) == table.subrange(
            at,
            table.len() as int,
        ));
        let tail = entered(table.subrange(at, table.len() as int), format);
        assert(seq![table[0]] + (rest.subrange(0, at - 1) + tail) == table.subrange(0, at) + tail);
    }
}

/// Enters a format into a table of heights.
fn enter(table: &mut Vec<VideoFormat>, format: VideoFormat)
    ensures
        formats_view(final(table)@) == entered(formats_view(old(table)@), format@),
{
    let ghost before = formats_view(table@);
    let mut at: usize = 0;
    while at < table.len() && table[at].height > format.height
        invariant
            at <= table.len(),
            before == formats_view(table@),
            forall|j: int| 0 <= j < at ==> (#[trigger] before[j]).height > format.height,
        decreases table.len() - at,
    {
        assert(before[at as int] == table@[at as int]@);
        at = at + 1;
    }
    let ghost rest = before.subrange(at as int, before.len() as int);
    proof {
        lemma_entered_later(before, format@, at as int);
    }
    if at < table.len() && table[at].height == format.height {
        assert(rest[0] == table@[at as int]@);
        let new_size: Double = match format.filesize {
            Some(size) => size,
            None => Double::zero(),
        };
        let kept_size: Double = match table[at].filesize {
            Some(size) => size,
            None => Double::zero(),
        };
        // Keep the larger file size seen at this height.
        if new_size.gt(kept_size) {
            table.set(at, format);
            assert(formats_view(table@) =~= before.subrange(0, at as int) + rest.update(
                0,
                format@,
            ));
        } else {
            assert(before =~= before.subrange(0, at as int) + rest.update(0, rest[0]));
        }
    } else {
        proof {
            if at < table@.len() {
                assert(rest[0] == table@[at as int]@);
            }
        }
        table.insert(at, format);
        assert(formats_view(table@) =~= before.subrange(0, at as int) + (seq![format@] + rest));
    }
}

/// Collapses formats down to one entry per distinct height, the greatest first, keeping the
/// largest known file size at each.
pub fn height_table(formats: &Vec<VideoFormat>) -> (table: Vec<VideoFormat>)
    ensures
        formats_view(table@) == heights_of(formats_view(formats@)),
{
    let ghost all = formats_view(formats@);
    let mut table: Vec<VideoFormat> = Vec::new();
    let mut i: usize = 0;
    assert(all.subrange(0, 0) =~= Seq::<FormatView>::empty());
    assert(formats_view(table@) =~= Seq::<FormatView>::empty());
    while i < formats.len()
        invariant
            i <= formats.len(),
            all == formats_view(formats@),
            formats_view(table@) == heights_of(all.subrange(0, i as int)),
        decreases formats.len() - i,
    {
        let format = VideoFormat {
            height: formats[i].height,
            filesize: formats[i].filesize,
            ext: formats[i].ext.clone(),
        };
        proof {
            assert(all.subrange(0, i + 1).drop_last() == all.subrange(0, i as int));
            assert(all.subrange(0, i + 1).last() == format@);
        }
        enter(&mut table, format);
        i = i + 1;
    }
    assert(all.subrange(0, all.len() as int) == all);
    table
}

/// The option for a height.
fn option_for(height: u32, note: String) -> (option: QualityOption)
    ensures
        option@ == height_option(height, note@),
{
    let numeral = decimal::decimal_text(height as u64);
    QualityOption {
        id: "v".to_owned().concat(numeral.as_str()),
        label: numeral.concat("p"),
        height,
        note,
    }
}

/// Builds the quality menu for a table of heights.
pub fn quality_options(table: &Vec<VideoFormat>) -> (options: Vec<QualityOption>)
    ensures
        qualities_view(options@) == menu(formats_view(table@)),
{
    let mut options: Vec<QualityOption> = Vec::new();
    options.push(
        QualityOption {
            id: "vbest".to_owned(),
            label: "Best available".to_owned(),
            height: u32::MAX,
            note: "".to_owned(),
        },
    );
    assert(qualities_view(options@) =~= seq![best_option()]);
    if table.len() == 0 {
        // No per-height formats to work with: offer a standard ladder.
        options.push(option_for(1080, "".to_owned()));
        options.push(option_for(720, "".to_owned()));
        options.push(option_for(480, "".to_owned()));
        options.push(option_for(360, "".to_owned()));
        assert(qualities_view(options@) =~= seq![best_option()] + ladder());
        return options;
    }
    let ghost rows = formats_view(table@);
    let ghost made = rows.map_values(
        |format: FormatView| height_option(format.height, note_of(format)),
    );
    let mut i: usize = 0;
    assert(qualities_view(options@) =~= seq![best_option()] + made.subrange(0, 0));
    while i < table.len()
        invariant
            i <= table.len(),
            rows == formats_view(table@),
            made == rows.map_values(
                |format: FormatView| height_option(format.height, note_of(format)),
            ),
            qualities_view(options@) == seq![best_option()] + made.subrange(0, i as int),
        decreases table.len() - i,
    {
        let ghost seen = qualities_view(options@);
        let note = match table[i].filesize {
            Some(size) => table[i].ext.clone().concat(" · ~").concat(
                double::human_size(size).as_str(),
            ),
            None => table[i].ext.clone(),
        };
        assert(rows[i as int] == table@[i as int]@);
        options.push(option_for(table[i].height, note));
        proof {
            assert(qualities_view(options@) =~= seen.push(made[i as int]));
            assert(made.subrange(0, i + 1) =~= made.subrange(0, i as int).push(made[i as int]));
            assert(seq![best_option()] + made.subrange(0, i + 1) =~= seen.push(made[i as int]));
        }
        i = i + 1;
    }
    assert(made.subrange(0, made.len() as int) == made);
    options
}

/// Builds the quality menu from the `formats` array of a dump.
pub fn derive_qualities(dump: &Value) -> (options: Vec<QualityOption>)
    ensures
        qualities_view(options@) == dump_menu(json::json_tree(*dump)),
{
    let table = height_table(&read_formats(dump));
    quality_options(&table)
}

/// What the preview card shows for the fields of a dump.
pub fn media_info(fields: MediaFields) -> (info: MediaInfo)
    ensures
        info@ == media_from(fields@),
{
    let qualities = quality_options(&height_table(&fields.formats));
    let duration: Double = match fields.duration {
        Some(seconds) => seconds,
        None => Double::zero(),
    };
    let is_live: bool = match fields.is_live {
        Some(live) => live,
        None => false,
    };
    MediaInfo {
        title: string_or(fields.title, "Untitled"),
        uploader: string_or(fields.uploader, ""),
        thumbnail: string_or(fields.thumbnail, ""),
        duration,
        extractor: string_or(fields.extractor, ""),
        is_live,
        qualities,
    }
}

/// Turns the engine's JSON info dictionary into a `MediaInfo`.
pub fn parse_media_info(dump: &Value) -> (info: MediaInfo)
    ensures
        info@ == media_of(json::json_tree(*dump)),
{
    let is_live: Option<bool> = match json::get(dump, "is_live") {
        Some(value) => value.as_bool(),
        None => None,
    };
    let fields = MediaFields {
        title: json::get_text(dump, "title"),
        uploader: json::get_either_text(dump, "uploader", "channel"),
        thumbnail: json::get_text(dump, "thumbnail"),
        duration: json::get_number(dump, "duration"),
        extractor: json::get_either_text(dump, "extractor_key", "extractor"),
        is_live,
        formats: read_formats(dump),
    };
    assert(fields@ =~= media_fields(json::json_tree(*dump)));
    media_info(fields)
}

/// What a finished probe of a link comes to: the previewable metadata, or why there is none.
pub fn probe_url(success: bool, stdout: &[u8], stderr: &[u8]) -> (probed: Result<MediaInfo, String>)
    ensures
        match probed {
            Ok(info) => success && json::json_parse(stdout@) is Some && info@ == media_of(
                json::json_parse(stdout@)->0,
            ),
            Err(error) => if success {
                json::json_parse(stdout@) is None && error@ == failure::probe_fallback()
            } else {
                error@ == failure::probe_failure(stderr@)
            },
        },
{
    if !success {
        return Err(failure::friendly_probe_error(stderr));
    }
    match json::parse_json(stdout) {
        Ok(dump) => Ok(parse_media_info(&dump)),
        Err(_) => Err(
            "Couldn't read that link. Check the post is public, then try again.".to_owned(),
        ),
    }
}

/// The heights fall from each row of a table to the next.
pub open spec fn descending(table: Seq<FormatView>) -> bool {
    forall|i: int, j: int|
        0 <= i < j < table.len() ==> (#[trigger] table[i]).height > (#[trigger] table[j]).height
}

/// Some row has the height.
pub open spec fn has_height(table: Seq<FormatView>, height: u32) -> bool {
    exists|i: int| 0 <= i < table.len() && (#[trigger] table[i]).height == height
}

/// Where a format is entered into a table: over the row of its height, or between two rows.
proof fn lemma_entered_shape(table: Seq<FormatView>, format: FormatView) -> (at: int)
    ensures
        0 <= at <= table.len(),
        forall|j: int| 0 <= j < at ==> (#[trigger] table[j]).height > format.height,
        if at < table.len() && table[at].height == format.height {
            entered(table, format) == table.update(at, larger(table[at], format))
        } else {
            &&& entered(table, format) == table.insert(at, format)
            &&& at < table.len() ==> table[at].height < format.height
        },
    decreases table.len(),
{
    if table.len() == 0 || table[0].height < format.height {
        assert(entered(table, format) == table.insert(0, format));
        0
    } else if table[0].height == format.height {
        0
    } else {
        let rest = table.drop_first();
        let at = lemma_entered_shape(rest, format) + 1;
        assert forall|j: int| 0 <= j < at implies (#[trigger] table[j]).height
            > format.height by {
            if j > 0 {
                assert(table[j] == rest[j - 1]);
            }
        }
        if at < table.len() && table[at].height == format.height {
            assert(entered(table, format) == table.update(at, larger(table[at], format)));
        } else {
            assert(entered(table, format) == table.insert(at, format));
        }
        at
    }
}

/// The table of heights is sorted from the greatest down, with no height twice.
pub proof fn law_heights_descend(formats: Seq<FormatView>)
    ensures
        descending(heights_of(formats)),
    decreases formats.len(),
{
    if formats.len() > 0 {
        law_heights_descend(formats.drop_last());
        let table = heights_of(formats.drop_last());
        let format = formats.last();
        let at = lemma_entered_shape(table, format);
        let now = heights_of(formats);
        assert forall|i: int, j: int| 0 <= i < j < now.len() implies (#[trigger] now[i]).height > (
        #[trigger] now[j]).height by {
            if now.len() == table.len() {
                assert(table[i].height > table[j].height);
            } else {
                if i < at && j < at {
                    assert(table[i].height > table[j].height);
                } else if i < at && j > at {
                    assert(table[i].height > table[j - 1].height);
                } else if i == at {
                    if j - 1 > at {
                        assert(table[at].height > table[j - 1].height);
                    }
                } else if i > at {
                    assert(table[i - 1].height > table[j - 1].height);
                }
            }
        }
    }
}

/// The menu shows every height that the video actually offers, and no other: a height is in the
/// table exactly when some format has it.
pub proof fn law_every_height_is_shown(formats: Seq<FormatView>, height: u32)
    ensures
        has_height(heights_of(formats), height) <==> has_height(formats, height),
    decreases formats.len(),
{
    if formats.len() > 0 {
        let earlier = formats.drop_last();
        let table = heights_of(earlier);
        let format = formats.last();
        let now = heights_of(formats);
        law_every_height_is_shown(earlier, height);
        let at = lemma_entered_shape(table, format);
        assert(now[at].height == format.height);
        if has_height(earlier, height) {
            let i = choose|i: int| 0 <= i < earlier.len() && (#[trigger] earlier[i]).height == height;
            assert(formats[i].height == height);
        }
        if has_height(formats, height) && height != format.height {
            let i = choose|i: int| 0 <= i < formats.len() && (#[trigger] formats[i]).height == height;
            assert(earlier[i].height == height);
        }
        if height == format.height {
            assert(formats[formats.len() - 1].height == height);
        }
        if has_height(table, height) {
            let i = choose|i: int| 0 <= i < table.len() && (#[trigger] table[i]).height == height;
            if now.len() == table.len() || i < at {
                assert(now[i].height == height);
            } else {
                assert(now[i + 1].height == height);
            }
        }
        if has_height(now, height) && height != format.height {
            let i = choose|i: int| 0 <= i < now.len() && (#[trigger] now[i]).height == height;
            if now.len() == table.len() || i < at {
                assert(table[i].height == height);
            } else {
                assert(table[i - 1].height == height);
            }
        }
    }
}

/// Each row of the table is one of the formats, and no format of its height is larger.
pub proof fn law_largest_size_is_kept(formats: Seq<FormatView>, row: int, i: int)
    requires
        0 <= row < heights_of(formats).len(),
        0 <= i < formats.len(),
        formats[i].height == heights_of(formats)[row].height,
    ensures
        formats.contains(heights_of(formats)[row]),
        !size_or_zero(formats[i].filesize).above(
            size_or_zero(heights_of(formats)[row].filesize),
        ),
    decreases formats.len(),
{
    let earlier = formats.drop_last();
    let table = heights_of(earlier);
    let format = formats.last();
    let now = heights_of(formats);
    let at = lemma_entered_shape(table, format);
    law_heights_descend(formats);
    law_heights_descend(earlier);
    assert(formats[formats.len() - 1] == format);
    // The row's place in the table before this format, if it had one.
    let old_row = if now.len() == table.len() || row < at {
        row
    } else {
        row - 1
    };
    if now.len() > table.len() && row == at {
        // A new height: no earlier format has it.
        if i < earlier.len() {
            assert(earlier[i] == formats[i]);
            assert(has_height(earlier, format.height));
            law_every_height_is_shown(earlier, format.height);
            let k = choose|k: int|
                0 <= k < table.len() && (#[trigger] table[k]).height == format.height;
            assert(k >= at);
            if k > at {
                assert(table[at].height > table[k].height);
            }
            assert(false);
        }
    } else {
        let height = now[row].height;
        assert(table[old_row].height == height);
        law_every_height_is_shown(earlier, height);
        let e = choose|e: int| 0 <= e < earlier.len() && (#[trigger] earlier[e]).height == height;
        assert(has_height(table, height));
        law_largest_size_is_kept(earlier, old_row, e);
        let m = choose|m: int| 0 <= m < earlier.len() && earlier[m] == table[old_row];
        assert(formats[m] == earlier[m]);
        if i < earlier.len() {
            assert(earlier[i] == formats[i]);
            law_largest_size_is_kept(earlier, old_row, i);
        }
        if row != at || now.len() > table.len() {
            // Another height than the format's: the row is as it was.
            if i == formats.len() - 1 {
                assert(now[at].height == now[row].height);
                assert(false);
            }
        }
    }
}

/// Every option of a menu, handed back as a quality token, selects what it stands for: the
/// first the best there is, and each other one its height.
pub proof fn law_options_select_what_they_show(table: Seq<FormatView>, i: int)
    requires
        0 <= i < menu(table).len(),
    ensures
        request::selector(menu(table)[i].id) == (if i == 0 {
            request::best_selector()
        } else {
            request::height_selector(menu(table)[i].height)
        }),
{
    if i > 0 {
        request::law_height_token_selects_height(menu(table)[i].height);
    }
}

/// No two options of a menu have the same id.
pub proof fn law_option_ids_differ(formats: Seq<FormatView>, i: int, j: int)
    requires
        0 <= i < j < menu(heights_of(formats)).len(),
    ensures
        menu(heights_of(formats))[i].id != menu(heights_of(formats))[j].id,
{
    let table = heights_of(formats);
    let options = menu(table);
    law_heights_descend(formats);
    request::law_height_token_selects_height(options[j].height);
    if i == 0 {
        reveal_strlit("vbest");
        reveal_strlit("v");
        let token = "vbest"@;
        assert(token.subrange(1, 5)[0] == 'b');
        assert(!decimal::is_digit(token.subrange(1, 5)[0]));
        assert(request::token_height(token) is None);
    } else {
        request::law_height_token_selects_height(options[i].height);
        if table.len() > 0 {
            assert(table[i - 1].height > table[j - 1].height);
        }
    }
}

/// Fields describe a video format exactly when there is a height and the codec is not said to be
/// missing, whatever else it is called. The size is the exact one, else the approximate one;
/// the container is `mp4` where it is not said.
pub proof fn law_format_is_described(fields: FormatFieldsView)
    ensures
        format_from(fields) is Some <==> fields.height is Some && fields.vcodec != Some("none"@),
        format_from(fields) matches Some(format) ==> {
            &&& fields.height->0 <= u32::MAX ==> format.height == fields.height->0
            &&& fields.filesize is Some ==> format.filesize == fields.filesize
            &&& fields.filesize is None ==> format.filesize == fields.filesize_approx
            &&& fields.ext is Some ==> format.ext == fields.ext->0
            &&& fields.ext is None ==> format.ext == "mp4"@
        },
{
}

/// Only the lowest 32 bits of a height count.
pub proof fn law_height_is_cut(fields: FormatFieldsView, high: u64, low: u32)
    requires
        high <= u32::MAX,
        fields.height == Some((high * 0x1_0000_0000 + low) as u64),
        format_from(fields) is Some,
    ensures
        format_from(fields)->0.height == low,
{
    let height = (high * 0x1_0000_0000 + low) as u64;
    assert(height % 0x1_0000_0000 == low) by (nonlinear_arith)
        requires
            height == high * 0x1_0000_0000 + low,
            0 <= low < 0x1_0000_0000,
            high <= 0xffff_ffff,
    ;
}

/// An object offers a video format exactly when it has an unsigned height and its codec is not
/// the text `none`, whatever other text or value it is.
pub proof fn law_entry_is_a_format(entry: JsonTree)
    ensures
        format_of(entry) is Some <==> {
            &&& entry is Object
            &&& entry->Object_0.contains_key("height"@)
            &&& entry->Object_0["height"@] is Number
            &&& entry->Object_0["height"@]->unsigned is Some
            &&& !(entry->Object_0.contains_key("vcodec"@) && entry->Object_0["vcodec"@]
                == JsonTree::Text("none"@))
        },
{
}

/// What an entry says is what the format has, key by key.
pub proof fn law_entry_is_read(m: Map<Seq<char>, JsonTree>)
    requires
        format_of(JsonTree::Object(m)) is Some,
    ensures
        ({
            let format = format_of(JsonTree::Object(m))->0;
            &&& m["height"@]->unsigned->0 <= u32::MAX ==> format.height == m["height"@]->unsigned->0
            &&& m.contains_key("filesize"@) && m["filesize"@] is Number ==> format.filesize == Some(
                m["filesize"@]->double,
            )
            &&& !(m.contains_key("filesize"@) && m["filesize"@] is Number) && m.contains_key(
                "filesize_approx"@,
            ) && m["filesize_approx"@] is Number ==> format.filesize == Some(
                m["filesize_approx"@]->double,
            )
            &&& !(m.contains_key("filesize"@) && m["filesize"@] is Number) && !(m.contains_key(
                "filesize_approx"@,
            ) && m["filesize_approx"@] is Number) ==> format.filesize is None
            &&& m.contains_key("ext"@) && m["ext"@] is Text ==> format.ext == m["ext"@]->Text_0
            &&& !(m.contains_key("ext"@) && m["ext"@] is Text) ==> format.ext == "mp4"@
        }),
{
}

/// The formats of a list of entries are those of its parts, one after another, and an entry is
/// taken by itself alone.
pub proof fn law_formats_one_by_one(first: Seq<JsonTree>, second: Seq<JsonTree>, entry: JsonTree)
    ensures
        formats_of(first + second) == formats_of(first) + formats_of(second),
        formats_of(seq![entry]) == (match format_of(entry) {
            Some(format) => seq![format],
            None => seq![],
        }),
    decreases second.len(),
{
    let one = seq![entry];
    assert(one.drop_last() =~= Seq::<JsonTree>::empty());
    assert(formats_of(one.drop_last()) =~= Seq::<FormatView>::empty());
    assert(formats_of(one) =~= (match format_of(entry) {
        Some(format) => seq![format],
        None => seq![],
    }));
    if second.len() == 0 {
        assert(first + second =~= first);
        assert(formats_of(first) + formats_of(second) =~= formats_of(first));
    } else {
        let shorter = second.drop_last();
        law_formats_one_by_one(first, shorter, entry);
        assert((first + second).drop_last() =~= first + shorter);
        assert(formats_of(first + second) =~= formats_of(first) + formats_of(second));
    }
}

proof fn lemma_format_of_an_entry(entries: Seq<JsonTree>, format: FormatView)
    ensures
        formats_of(entries).contains(format) <==> exists|i: int|
            0 <= i < entries.len() && format_of(#[trigger] entries[i]) == Some(format),
    decreases entries.len(),
{
    if entries.len() > 0 {
        let shorter = entries.drop_last();
        lemma_format_of_an_entry(shorter, format);
        let before = formats_of(shorter);
        let now = formats_of(entries);
        if before.contains(format) {
            let k = choose|k: int| 0 <= k < before.len() && before[k] == format;
            assert(now[k] == format);
            let i = choose|i: int|
                0 <= i < shorter.len() && format_of(#[trigger] shorter[i]) == Some(format);
            assert(entries[i] == shorter[i]);
        }
        if exists|i: int|
            0 <= i < entries.len() && format_of(#[trigger] entries[i]) == Some(format) {
            let i = choose|i: int|
                0 <= i < entries.len() && format_of(#[trigger] entries[i]) == Some(format);
            if i < shorter.len() {
                assert(shorter[i] == entries[i]);
            } else {
                assert(now[now.len() - 1] == format);
            }
        }
        if now.contains(format) && !before.contains(format) {
            let k = choose|k: int| 0 <= k < now.len() && now[k] == format;
            if k < before.len() {
                assert(before[k] == format);
            }
            assert(format_of(entries[entries.len() - 1]) == Some(format));
        }
    }
}

/// Every height of the dump is an option of its menu: for each entry with an unsigned height
/// and a codec that is not said to be missing, there is an option of that height, with the
/// height in its id and label.
pub proof fn law_every_offered_height_is_an_option(
    m: Map<Seq<char>, JsonTree>,
    entries: Seq<JsonTree>,
    i: int,
    height: u32,
) -> (option: int)
    requires
        m.contains_key("formats"@),
        m["formats"@] == JsonTree::Array(entries),
        0 <= i < entries.len(),
        entries[i] is Object,
        entries[i]->Object_0.contains_key("height"@),
        entries[i]->Object_0["height"@] is Number,
        entries[i]->Object_0["height"@]->unsigned == Some(height as u64),
        !(entries[i]->Object_0.contains_key("vcodec"@) && entries[i]->Object_0["vcodec"@]
            == JsonTree::Text("none"@)),
    ensures
        0 < option < dump_menu(JsonTree::Object(m)).len(),
        dump_menu(JsonTree::Object(m))[option].height == height,
        dump_menu(JsonTree::Object(m))[option].id == "v"@ + decimal::decimal(height as nat),
        dump_menu(JsonTree::Object(m))[option].label == decimal::decimal(height as nat) + "p"@,
{
    let format = format_of(entries[i])->0;
    assert(format.height == height);
    lemma_format_of_an_entry(entries, format);
    let formats = formats_of(entries);
    let k = choose|k: int| 0 <= k < formats.len() && formats[k] == format;
    assert(formats[k].height == height);
    law_every_height_is_shown(formats, height);
    let table = heights_of(formats);
    let row = choose|row: int| 0 <= row < table.len() && (#[trigger] table[row]).height == height;
    assert(dump_formats(JsonTree::Object(m)) == formats);
    row + 1
}

/// Every option of a menu but the first is offered by some entry of the dump, which has the
/// option's height, and whose container and size the note tells; no entry of that height is
/// larger. Where no entry offers a height there is the standard ladder.
pub proof fn law_every_option_is_offered(
    m: Map<Seq<char>, JsonTree>,
    entries: Seq<JsonTree>,
    option: int,
) -> (i: int)
    requires
        m.contains_key("formats"@),
        m["formats"@] == JsonTree::Array(entries),
        0 < option < dump_menu(JsonTree::Object(m)).len(),
        exists|e: int| 0 <= e < entries.len() && format_of(#[trigger] entries[e]) is Some,
    ensures
        0 <= i < entries.len(),
        format_of(entries[i]) is Some,
        format_of(entries[i])->0.height == dump_menu(JsonTree::Object(m))[option].height,
        dump_menu(JsonTree::Object(m))[option].note == (match format_of(entries[i])->0.filesize {
            Some(size) => format_of(entries[i])->0.ext + " · ~"@ + double::size_text(size),
            None => format_of(entries[i])->0.ext,
        }),
        forall|e: int|
            0 <= e < entries.len() && format_of(#[trigger] entries[e]) is Some && format_of(
                entries[e],
            )->0.height == format_of(entries[i])->0.height ==> !size_or_zero(
                format_of(entries[e])->0.filesize,
            ).above(size_or_zero(format_of(entries[i])->0.filesize)),
{
    let formats = formats_of(entries);
    let table = heights_of(formats);
    assert(dump_formats(JsonTree::Object(m)) == formats);
    let some = choose|e: int| 0 <= e < entries.len() && format_of(#[trigger] entries[e]) is Some;
    let offered = format_of(entries[some])->0;
    lemma_format_of_an_entry(entries, offered);
    let at = choose|k: int| 0 <= k < formats.len() && formats[k] == offered;
    assert(formats[at].height == offered.height);
    law_every_height_is_shown(formats, offered.height);
    assert(table.len() > 0);
    let row = option - 1;
    assert(table[row].height == table[row].height);
    law_every_height_is_shown(formats, table[row].height);
    assert(has_height(table, table[row].height));
    let f = choose|f: int|
        0 <= f < formats.len() && (#[trigger] formats[f]).height == table[row].height;
    law_largest_size_is_kept(formats, row, f);
    lemma_format_of_an_entry(entries, table[row]);
    let i = choose|i: int| 0 <= i < entries.len() && format_of(#[trigger] entries[i]) == Some(
        table[row],
    );
    assert forall|e: int|
        0 <= e < entries.len() && format_of(#[trigger] entries[e]) is Some && format_of(
            entries[e],
        )->0.height == table[row].height implies !size_or_zero(
        format_of(entries[e])->0.filesize,
    ).above(size_or_zero(table[row].filesize)) by {
        let format = format_of(entries[e])->0;
        lemma_format_of_an_entry(entries, format);
        let k = choose|k: int| 0 <= k < formats.len() && formats[k] == format;
        law_largest_size_is_kept(formats, row, k);
    }
    i
}

/// A menu begins with the best there is, and goes on with one option for each row of the table.
pub proof fn law_best_comes_first(table: Seq<FormatView>)
    ensures
        menu(table).len() > 1,
        menu(table)[0] == (QualityView {
            id: "vbest"@,
            label: "Best available"@,
            height: u32::MAX,
            note: ""@,
        }),
        table.len() > 0 ==> menu(table).len() == table.len() + 1,
{
}

/// The heights of a menu fall from each option after the first to the next.
pub proof fn law_menu_descends(formats: Seq<FormatView>, i: int, j: int)
    requires
        0 < i < j < menu(heights_of(formats)).len(),
    ensures
        menu(heights_of(formats))[i].height > menu(heights_of(formats))[j].height,
{
    let table = heights_of(formats);
    law_heights_descend(formats);
    if table.len() > 0 {
        assert(table[i - 1].height > table[j - 1].height);
    }
}

/// Without any format there is a ladder of usual heights, without notes.
pub proof fn law_ladder()
    ensures
        ({
            let options = menu(heights_of(Seq::<FormatView>::empty()));
            &&& options.len() == 5
            &&& options[1].height == 1080 && options[2].height == 720
            &&& options[3].height == 480 && options[4].height == 360
            &&& forall|i: int|
                1 <= i < 5 ==> (#[trigger] options[i]).note == ""@ && options[i].id == "v"@
                    + decimal::decimal(options[i].height as nat) && options[i].label
                    == decimal::decimal(options[i].height as nat) + "p"@
        }),
{
}

/// Of the formats of one height that are equally large, the first is kept: one that is kept is
/// larger than all before it.
pub proof fn law_first_of_the_largest_is_kept(formats: Seq<FormatView>, row: int) -> (kept: int)
    requires
        0 <= row < heights_of(formats).len(),
    ensures
        0 <= kept < formats.len(),
        formats[kept] == heights_of(formats)[row],
        forall|i: int|
            0 <= i < kept && (#[trigger] formats[i]).height == formats[kept].height
                ==> !size_or_zero(formats[i].filesize).at_least(
                size_or_zero(formats[kept].filesize),
            ),
    decreases formats.len(),
{
    let shorter = formats.drop_last();
    let table = heights_of(shorter);
    let format = formats.last();
    let now = heights_of(formats);
    let n = formats.len() - 1;
    let at = lemma_entered_shape(table, format);
    law_heights_descend(shorter);
    law_heights_descend(formats);
    assert(formats[n] == format);
    let old_row = if now.len() == table.len() || row < at {
        row
    } else {
        row - 1
    };
    if now.len() > table.len() && row == at {
        assert forall|i: int| 0 <= i < n && (#[trigger] formats[i]).height
            == format.height implies false by {
            assert(shorter[i].height == format.height);
            law_every_height_is_shown(shorter, format.height);
            let k = choose|k: int|
                0 <= k < table.len() && (#[trigger] table[k]).height == format.height;
            if k > at {
                assert(table[at].height > table[k].height);
            }
        }
        n
    } else {
        let kept = law_first_of_the_largest_is_kept(shorter, old_row);
        assert(formats[kept] == shorter[kept]);
        if now[row] == table[old_row] {
            assert forall|i: int| 0 <= i < kept && (#[trigger] formats[i]).height
                == formats[kept].height implies !size_or_zero(formats[i].filesize).at_least(
                size_or_zero(formats[kept].filesize),
            ) by {
                assert(shorter[i] == formats[i]);
            }
            kept
        } else {
            // The format took the place of a smaller one of its height.
            assert(row == at && now[row] == format);
            assert forall|i: int| 0 <= i < n && (#[trigger] formats[i]).height
                == formats[n].height implies !size_or_zero(formats[i].filesize).at_least(
                size_or_zero(formats[n].filesize),
            ) by {
                assert(shorter[i] == formats[i]);
                law_largest_size_is_kept(shorter, old_row, i);
            }
            n
        }
    }
}

/// What a dump says is shown, key by key; what it does not say has a default.
pub proof fn law_dump_is_shown(m: Map<Seq<char>, JsonTree>)
    ensures
        ({
            let shown = media_of(JsonTree::Object(m));
            let said = |key: Seq<char>| m.contains_key(key) && m[key] is Text;
            &&& shown.title == (if said("title"@) {
                m["title"@]->Text_0
            } else {
                "Untitled"@
            })
            &&& shown.thumbnail == (if said("thumbnail"@) {
                m["thumbnail"@]->Text_0
            } else {
                ""@
            })
            &&& said("uploader"@) ==> shown.uploader == m["uploader"@]->Text_0
            &&& !m.contains_key("uploader"@) && said("channel"@) ==> shown.uploader
                == m["channel"@]->Text_0
            &&& !said("uploader"@) && (m.contains_key("uploader"@) || !said("channel"@))
                ==> shown.uploader == ""@
            &&& said("extractor_key"@) ==> shown.extractor == m["extractor_key"@]->Text_0
            &&& !m.contains_key("extractor_key"@) && said("extractor"@) ==> shown.extractor
                == m["extractor"@]->Text_0
            &&& !said("extractor_key"@) && (m.contains_key("extractor_key"@) || !said(
                "extractor"@,
            )) ==> shown.extractor == ""@
            &&& shown.duration == (if m.contains_key("duration"@) && m["duration"@] is Number {
                m["duration"@]->double
            } else {
                Double { bits: 0 }
            })
            &&& shown.is_live == (m.contains_key("is_live"@) && m["is_live"@] == JsonTree::Bool(
                true,
            ))
            &&& shown.qualities == dump_menu(JsonTree::Object(m))
        }),
{
}

/// A dump that is no object says nothing, and one whose `formats` is no array offers nothing.
pub proof fn law_other_dumps_say_nothing(dump: JsonTree)
    ensures
        !(dump is Object) ==> media_of(dump) == (MediaView {
            title: "Untitled"@,
            uploader: ""@,
            thumbnail: ""@,
            duration: Double { bits: 0 },
            extractor: ""@,
            is_live: false,
            qualities: menu(Seq::<FormatView>::empty()),
        }),
        !(dump is Object && dump->Object_0.contains_key("formats"@)
            && dump->Object_0["formats"@] is Array) ==> dump_menu(dump) == menu(
            Seq::<FormatView>::empty(),
        ),
{
}

/// The models of what is read and shown have each part in its place.
pub proof fn law_models_hold_each_part(
    info: MediaInfo,
    option: QualityOption,
    format: VideoFormat,
    entry: FormatFields,
    fields: MediaFields,
    i: int,
)
    ensures
        info@.title == info.title@ && info@.uploader == info.uploader@ && info@.thumbnail
            == info.thumbnail@ && info@.duration == info.duration && info@.extractor
            == info.extractor@ && info@.is_live == info.is_live,
        info@.qualities.len() == info.qualities@.len(),
        0 <= i < info.qualities@.len() ==> info@.qualities[i] == info.qualities@[i]@,
        option@ == (QualityView {
            id: option.id@,
            label: option.label@,
            height: option.height,
            note: option.note@,
        }),
        format@ == (FormatView {
            height: format.height,
            filesize: format.filesize,
            ext: format.ext@,
        }),
        entry@ == (FormatFieldsView {
            vcodec: text::optional(entry.vcodec),
            height: entry.height,
            filesize: entry.filesize,
            filesize_approx: entry.filesize_approx,
            ext: text::optional(entry.ext),
        }),
        fields@.title == text::optional(fields.title) && fields@.uploader == text::optional(
            fields.uploader,
        ) && fields@.thumbnail == text::optional(fields.thumbnail) && fields@.duration
            == fields.duration && fields@.extractor == text::optional(fields.extractor)
            && fields@.is_live == fields.is_live,
        fields@.formats.len() == fields.formats@.len(),
        0 <= i < fields.formats@.len() ==> fields@.formats[i] == fields.formats@[i]@,
{
}

/// What fields say is shown as it is, and what they do not say has a default.
pub proof fn law_fields_are_shown(fields: MediaFieldsView)
    ensures
        ({
            let shown = media_from(fields);
            &&& shown.title == (match fields.title {
                Some(s) => s,
                None => "Untitled"@,
            })
            &&& shown.uploader == (match fields.uploader {
                Some(s) => s,
                None => ""@,
            })
            &&& shown.thumbnail == (match fields.thumbnail {
                Some(s) => s,
                None => ""@,
            })
            &&& shown.extractor == (match fields.extractor {
                Some(s) => s,
                None => ""@,
            })
            &&& shown.duration == (match fields.duration {
                Some(d) => d,
                None => Double { bits: 0 },
            })
            &&& shown.is_live == (fields.is_live == Some(true))
            &&& shown.qualities == menu(heights_of(fields.formats))
        }),
{
}

} // verus!
