//! Folders: where downloads go, how they are shown, and where a bundled ffmpeg lies.

use vstd::prelude::*;

use crate::text;

verus! {

/// A folder lookup that failed, as its message.
pub open spec fn lookup_error(found: Result<String, String>) -> Seq<char> {
    match found {
        Ok(_) => seq![],
        Err(error) => error@,
    }
}

/// The folder new downloads default to: the "Videos" directory, falling back to "Downloads",
/// then the home directory. Each lookup comes as the path found or as why there is none.
pub fn default_output_dir(
    videos: Result<String, String>,
    downloads: Result<String, String>,
    home: Result<String, String>,
) -> (dir: Result<String, String>)
    ensures
        match dir {
            Ok(path) => if videos is Ok {
                path == videos->Ok_0
            } else if downloads is Ok {
                path == downloads->Ok_0
            } else {
                home is Ok && path == home->Ok_0
            },
            Err(error) => videos is Err && downloads is Err && home is Err && error@
                == "Couldn't resolve a default download folder: "@ + lookup_error(home),
        },
{
    match videos {
        Ok(path) => Ok(path),
        Err(_) => match downloads {
            Ok(path) => Ok(path),
            Err(_) => match home {
                Ok(path) => Ok(path),
                Err(error) => Err(
                    "Couldn't resolve a default download folder: ".to_owned().concat(
                        error.as_str(),
                    ),
                ),
            },
        },
    }
}

/// How a finished download is shown in the file manager.
#[derive(Debug)]
pub enum Reveal {
    /// Highlight the file.
    Item(String),
    /// Open the folder.
    Folder(String),
}

/// Decides how to show a finished download. A file that still exists is highlighted;
/// otherwise its parent folder is opened, so the action never dead-ends on a moved file.
pub fn reveal_in_folder(path: String, exists: bool, parent: Option<String>) -> (shown: Result<
    Reveal,
    String,
>)
    ensures
        match shown {
            Ok(Reveal::Item(item)) => exists && item == path,
            Ok(Reveal::Folder(folder)) => !exists && parent == Some(folder),
            Err(error) => !exists && parent is None && error@ == "That file no longer exists."@,
        },
{
    if exists {
        Ok(Reveal::Item(path))
    } else {
        match parent {
            Some(folder) => Ok(Reveal::Folder(folder)),
            None => Err("That file no longer exists.".to_owned()),
        }
    }
}

/// The directory that a folder picker starts in: the one asked for, unless it is empty.
pub fn pick_folder(start_dir: Option<String>) -> (start: Option<String>)
    ensures
        start == (if start_dir is Some && start_dir->0@.len() > 0 {
            start_dir
        } else {
            None
        }),
{
    match start_dir {
        Some(dir) => if dir.as_str().is_empty() {
            None
        } else {
            Some(dir)
        },
        None => None,
    }
}

/// Where a bundled ffmpeg may lie.
#[derive(Clone, Copy, Debug, PartialEq, Eq, Structural)]
pub enum Candidate {
    /// The directory of the running executable.
    BesideExe,
    /// A `binaries` folder beneath it.
    BinariesBeneathExe,
    /// `../../binaries` from there, where a development build leaves them.
    BinariesAboveExe,
    /// A `binaries` folder in the working directory.
    Binaries,
}

/// The places to search for a bundled ffmpeg, in order. Those by the executable can only be
/// searched where its directory is known.
pub fn ffmpeg_candidates(exe_dir_known: bool) -> (places: Vec<Candidate>)
    ensures
        places@ == (if exe_dir_known {
            seq![
                Candidate::BesideExe,
                Candidate::BinariesBeneathExe,
                Candidate::BinariesAboveExe,
                Candidate::Binaries,
            ]
        } else {
            seq![Candidate::Binaries]
        }),
{
    let mut places: Vec<Candidate> = Vec::new();
    if exe_dir_known {
        places.push(Candidate::BesideExe);
        places.push(Candidate::BinariesBeneathExe);
        places.push(Candidate::BinariesAboveExe);
    }
    places.push(Candidate::Binaries);
    places
}

/// A name without the ending `.exe`.
pub open spec fn stem_of(name: Seq<char>) -> Seq<char> {
    if text::ends_with(name, ".exe"@) {
        name.subrange(0, name.len() - ".exe"@.len())
    } else {
        name
    }
}

/// The name of an ffmpeg executable: `ffmpeg`, `ffmpeg.exe`, or a variant `ffmpeg-*` of either.
pub open spec fn names_ffmpeg(name: Seq<char>) -> bool {
    stem_of(name) == "ffmpeg"@ || text::begins_with(stem_of(name), "ffmpeg-"@)
}

/// One of the names is that of an ffmpeg executable.
pub open spec fn some_ffmpeg(names: Seq<Seq<char>>) -> bool {
    exists|i: int| 0 <= i < names.len() && names_ffmpeg(#[trigger] names[i])
}

/// True when a directory with these entries contains an executable named `ffmpeg`,
/// `ffmpeg.exe`, or any `ffmpeg-*` triple-suffixed variant.
pub fn dir_has_ffmpeg(entries: &Vec<String>) -> (yes: bool)
    ensures
        yes == some_ffmpeg(text::texts(entries@)),
{
    let ghost names = text::texts(entries@);
    let mut i: usize = 0;
    while i < entries.len()
        invariant
            i <= entries.len(),
            names == text::texts(entries@),
            forall|j: int| 0 <= j < i ==> !names_ffmpeg(#[trigger] names[j]),
        decreases entries.len() - i,
    {
        assert(names[i as int] == entries@[i as int]@);
        let stem = match text::strip_suffix(entries[i].as_str(), ".exe") {
            Some(stem) => stem,
            None => entries[i].clone(),
        };
        if text::same_text(stem.as_str(), "ffmpeg") || text::starts_with(
            stem.as_str(),
            "ffmpeg-",
        ) {
            assert(names_ffmpeg(names[i as int]));
            return true;
        }
        i = i + 1;
    }
    false
}

/// A directory and its entries; without entries it could not be read.
#[derive(Debug)]
pub struct Listing {
    pub dir: String,
    pub entries: Option<Vec<String>>,
}

/// The directory can be read and has an ffmpeg.
pub open spec fn listing_has_ffmpeg(listing: Listing) -> bool {
    match listing.entries {
        Some(entries) => some_ffmpeg(text::texts(entries@)),
        None => false,
    }
}

/// The first directory with a bundled ffmpeg, if any.
pub fn bundled_ffmpeg_dir(listings: &Vec<Listing>) -> (dir: Option<String>)
    ensures
        match dir {
            Some(path) => exists|i: int|
                0 <= i < listings@.len() && #[trigger] listing_has_ffmpeg(listings@[i]) && path@
                    == listings@[i].dir@ && forall|j: int|
                    0 <= j < i ==> !#[trigger] listing_has_ffmpeg(listings@[j]),
            None => forall|j: int|
                0 <= j < listings@.len() ==> !#[trigger] listing_has_ffmpeg(listings@[j]),
        },
{
    let mut i: usize = 0;
    while i < listings.len()
        invariant
            i <= listings.len(),
            forall|j: int| 0 <= j < i ==> !#[trigger] listing_has_ffmpeg(listings@[j]),
        decreases listings.len() - i,
    {
        if let Some(entries) = &listings[i].entries {
            if dir_has_ffmpeg(entries) {
                assert(listing_has_ffmpeg(listings@[i as int]));
                return Some(listings[i].dir.clone());
            }
        }
        assert(!listing_has_ffmpeg(listings@[i as int]));
        i = i + 1;
    }
    None
}

/// The names of ffmpeg are `ffmpeg`, `ffmpeg.exe`, and `ffmpeg-` with anything after it, and no
/// others.
pub proof fn law_names_of_ffmpeg(name: Seq<char>)
    ensures
        names_ffmpeg(name) <==> name == "ffmpeg"@ || name == "ffmpeg.exe"@ || exists|
            rest: Seq<char>,
        | name == #[trigger] ("ffmpeg-"@ + rest),
{
    reveal_strlit("ffmpeg");
    reveal_strlit("ffmpeg.exe");
    reveal_strlit("ffmpeg-");
    reveal_strlit(".exe");
    let dashed = "ffmpeg-"@;
    let stem = stem_of(name);
    text::law_begins_with(name, dashed);
    if text::ends_with(name, ".exe"@) {
        let n = name.len() as int;
        assert(name =~= stem + ".exe"@) by {
            assert(name.subrange(n - 4, n) =~= ".exe"@);
        }
        if stem == "ffmpeg"@ {
            assert(name =~= "ffmpeg.exe"@);
        }
        if text::begins_with(stem, dashed) {
            assert(name.subrange(0, 7) =~= stem.subrange(0, 7));
        }
        if text::begins_with(name, dashed) {
            assert(name.subrange(0, 7) =~= dashed);
            assert(name.subrange(n - 4, n)[0] == '.');
            if n < 11 {
                assert(name.subrange(0, 7)[n - 4] == name[n - 4]);
                assert(dashed[n - 4] != '.');
            }
            assert(stem.subrange(0, 7) =~= name.subrange(0, 7));
        }
        if name == "ffmpeg"@ {
            assert(name.subrange(2, 6)[0] == 'm');
        }
        if name == "ffmpeg.exe"@ {
            assert(stem =~= "ffmpeg"@);
        }
    } else if name == "ffmpeg.exe"@ {
        assert(name.subrange(6, 10) =~= ".exe"@);
    }
}

/// A directory has ffmpeg exactly when one of its entries is named so.
pub proof fn law_directory_has_ffmpeg(names: Seq<Seq<char>>)
    ensures
        some_ffmpeg(names) <==> exists|i: int|
            0 <= i < names.len() && names_ffmpeg(#[trigger] names[i]),
{
}

/// A directory that cannot be read has no ffmpeg; of one that can be read, its entries decide. A
/// lookup that failed is told by its own message.
pub proof fn law_listings_and_lookups(dir: String, entries: Vec<String>, error: String)
    ensures
        !listing_has_ffmpeg(Listing { dir, entries: None }),
        listing_has_ffmpeg(Listing { dir, entries: Some(entries) }) <==> exists|i: int|
            0 <= i < entries@.len() && names_ffmpeg((#[trigger] entries@[i])@),
        lookup_error(Err(error)) == error@,
{
    let names = text::texts(entries@);
    if some_ffmpeg(names) {
        let i = choose|i: int| 0 <= i < names.len() && names_ffmpeg(#[trigger] names[i]);
        assert(names_ffmpeg(entries@[i]@));
    }
    if exists|i: int| 0 <= i < entries@.len() && names_ffmpeg((#[trigger] entries@[i])@) {
        let i = choose|i: int| 0 <= i < entries@.len() && names_ffmpeg((#[trigger] entries@[i])@);
        assert(names[i] == entries@[i]@);
    }
}

} // verus!
