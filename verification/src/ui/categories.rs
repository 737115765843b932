//! Canonical application categories, derived from freedesktop category
//! names.

use vstd::prelude::*;

use crate::text::strs;

verus! {

/// The canonical category labels, in the order they are offered.
pub open spec fn category_labels() -> Seq<Seq<char>> {
    seq![
        "Audio/Video"@,
        "Development"@,
        "Education"@,
        "Game"@,
        "Graphics"@,
        "Network"@,
        "Office"@,
        "Science"@,
        "Settings"@,
        "System"@,
        "Utility"@,
        "Other"@,
    ]
}

/// The canonical category labels, in the order they are offered.
pub fn category_label_list() -> (r: Vec<&'static str>)
    ensures
        r@.map_values(|s: &'static str| s@) == category_labels(),
{
    let r = vec![
        "Audio/Video",
        "Development",
        "Education",
        "Game",
        "Graphics",
        "Network",
        "Office",
        "Science",
        "Settings",
        "System",
        "Utility",
        "Other",
    ];
    proof {
        assert(r@.map_values(|s: &'static str| s@) =~= category_labels());
    }
    r
}

pub open spec fn audio_video_names() -> Seq<Seq<char>> {
    seq![
        "AudioVideo"@, "Audio"@, "Video"@, "Music"@, "Player"@, "Recorder"@, "Midi"@, "Mixer"@,
        "Sequencer"@, "Tuner"@, "TV"@,
    ]
}

pub open spec fn development_names() -> Seq<Seq<char>> {
    seq![
        "Development"@, "IDE"@, "TextEditor"@, "Debugger"@, "WebDevelopment"@, "Building"@,
        "Translation"@, "GUIDesigner"@, "Profiling"@, "RevisionControl"@, "ProjectManagement"@,
    ]
}

pub open spec fn education_names() -> Seq<Seq<char>> {
    seq!["Education"@, "Art"@, "Construction"@, "Languages"@, "Humanities"@, "Sports"@]
}

pub open spec fn game_names() -> Seq<Seq<char>> {
    seq![
        "Game"@, "ActionGame"@, "AdventureGame"@, "ArcadeGame"@, "BoardGame"@, "BlocksGame"@,
        "CardGame"@, "KidsGame"@, "LogicGame"@, "RolePlaying"@, "Shooter"@, "Simulation"@,
        "SportsGame"@, "StrategyGame"@,
    ]
}

pub open spec fn graphics_names() -> Seq<Seq<char>> {
    seq![
        "Graphics"@, "2DGraphics"@, "3DGraphics"@, "Photography"@, "Viewer"@, "RasterGraphics"@,
        "VectorGraphics"@, "Scanning"@, "OCR"@, "Publishing"@,
    ]
}

pub open spec fn network_names() -> Seq<Seq<char>> {
    seq![
        "Network"@, "WebBrowser"@, "Email"@, "InstantMessaging"@, "Chat"@, "IRCClient"@, "Feed"@,
        "FileTransfer"@, "HamRadio"@, "News"@, "P2P"@, "RemoteAccess"@, "Telephony"@,
        "VideoConference"@,
    ]
}

pub open spec fn office_names() -> Seq<Seq<char>> {
    seq![
        "Office"@, "Calendar"@, "ContactManagement"@, "Database"@, "Dictionary"@, "Chart"@,
        "Finance"@, "FlowChart"@, "PDA"@, "Presentation"@, "Spreadsheet"@, "WordProcessor"@,
    ]
}

pub open spec fn science_names() -> Seq<Seq<char>> {
    seq![
        "Science"@, "ArtificialIntelligence"@, "Astronomy"@, "Biology"@, "Chemistry"@,
        "ComputerScience"@, "DataVisualization"@, "Economy"@, "Electricity"@, "Geography"@,
        "Geology"@, "Geoscience"@, "Math"@, "MedicalSoftware"@, "NumericalAnalysis"@, "Parallel"@,
        "Physics"@, "Robotics"@,
    ]
}

pub open spec fn settings_names() -> Seq<Seq<char>> {
    seq![
        "Settings"@, "DesktopSettings"@, "HardwareSettings"@, "Printing"@, "PackageManager"@,
        "Preferences"@, "Security"@,
    ]
}

pub open spec fn system_names() -> Seq<Seq<char>> {
    seq![
        "System"@, "Emulator"@, "FileTools"@, "FileManager"@, "Monitor"@, "TerminalEmulator"@,
        "Filesystem"@,
    ]
}

pub open spec fn utility_names() -> Seq<Seq<char>> {
    seq![
        "Utility"@, "Accessibility"@, "Archiving"@, "Calculator"@, "Clock"@, "Compression"@,
        "TextTools"@, "Maps"@,
    ]
}

/// The canonical label of one freedesktop category name, or empty when the
/// name belongs to no group.
pub open spec fn category_label(c: Seq<char>) -> Seq<char> {
    if audio_video_names().contains(c) {
        "Audio/Video"@
    } else if development_names().contains(c) {
        "Development"@
    } else if education_names().contains(c) {
        "Education"@
    } else if game_names().contains(c) {
        "Game"@
    } else if graphics_names().contains(c) {
        "Graphics"@
    } else if network_names().contains(c) {
        "Network"@
    } else if office_names().contains(c) {
        "Office"@
    } else if science_names().contains(c) {
        "Science"@
    } else if settings_names().contains(c) {
        "Settings"@
    } else if system_names().contains(c) {
        "System"@
    } else if utility_names().contains(c) {
        "Utility"@
    } else {
        seq![]
    }
}

/// The label of the first category that belongs to a group; `"Other"` when
/// none does, and empty when there are no categories at all.
pub open spec fn primary_category_of(cats: Seq<Seq<char>>) -> Seq<char>
    decreases cats.len(),
{
    if cats.len() == 0 {
        seq![]
    } else if category_label(cats[0]).len() > 0 {
        category_label(cats[0])
    } else if cats.len() == 1 {
        "Other"@
    } else {
        primary_category_of(cats.drop_first())
    }
}

fn in_names(c: &str, names: &[&'static str]) -> (r: bool)
    ensures
        r == names@.map_values(|s: &'static str| s@).contains(c@),
{
    let ghost views = names@.map_values(|s: &'static str| s@);
    let mut i: usize = 0;
    while i < names.len()
        invariant
            i <= names@.len(),
            views == names@.map_values(|s: &'static str| s@),
            forall|k: int| 0 <= k < i ==> views[k] != c@,
        decreases names@.len() - i,
    {
        if crate::text::str_eq(names[i], c) {
            proof {
                assert(views[i as int] == c@);
            }
            return true;
        }
        i = i + 1;
    }
    false
}

/// The canonical label of one category name (empty for none).
fn label_of(c: &str) -> (r: &'static str)
    ensures
        r@ == category_label(c@),
{
    let av: [&'static str; 11] = [
        "AudioVideo", "Audio", "Video", "Music", "Player", "Recorder", "Midi", "Mixer", "Sequencer",
        "Tuner", "TV",
    ];
    let dev: [&'static str; 11] = [
        "Development", "IDE", "TextEditor", "Debugger", "WebDevelopment", "Building", "Translation",
        "GUIDesigner", "Profiling", "RevisionControl", "ProjectManagement",
    ];
    let edu: [&'static str; 6] = ["Education", "Art", "Construction", "Languages", "Humanities", "Sports"];
    let game: [&'static str; 14] = [
        "Game", "ActionGame", "AdventureGame", "ArcadeGame", "BoardGame", "BlocksGame", "CardGame",
        "KidsGame", "LogicGame", "RolePlaying", "Shooter", "Simulation", "SportsGame", "StrategyGame",
    ];
    let gfx: [&'static str; 10] = [
        "Graphics", "2DGraphics", "3DGraphics", "Photography", "Viewer", "RasterGraphics",
        "VectorGraphics", "Scanning", "OCR", "Publishing",
    ];
    let net: [&'static str; 14] = [
        "Network", "WebBrowser", "Email", "InstantMessaging", "Chat", "IRCClient", "Feed",
        "FileTransfer", "HamRadio", "News", "P2P", "RemoteAccess", "Telephony", "VideoConference",
    ];
    let office: [&'static str; 12] = [
        "Office", "Calendar", "ContactManagement", "Database", "Dictionary", "Chart", "Finance",
        "FlowChart", "PDA", "Presentation", "Spreadsheet", "WordProcessor",
    ];
    let sci: [&'static str; 18] = [
        "Science", "ArtificialIntelligence", "Astronomy", "Biology", "Chemistry", "ComputerScience",
        "DataVisualization", "Economy", "Electricity", "Geography", "Geology", "Geoscience", "Math",
        "MedicalSoftware", "NumericalAnalysis", "Parallel", "Physics", "Robotics",
    ];
    let settings: [&'static str; 7] = [
        "Settings", "DesktopSettings", "HardwareSettings", "Printing", "PackageManager", "Preferences",
        "Security",
    ];
    let sys: [&'static str; 7] = [
        "System", "Emulator", "FileTools", "FileManager", "Monitor", "TerminalEmulator", "Filesystem",
    ];
    let util: [&'static str; 8] = [
        "Utility", "Accessibility", "Archiving", "Calculator", "Clock", "Compression", "TextTools", "Maps",
    ];
    proof {
        assert(av@.map_values(|s: &'static str| s@) =~= audio_video_names());
        assert(dev@.map_values(|s: &'static str| s@) =~= development_names());
        assert(edu@.map_values(|s: &'static str| s@) =~= education_names());
        assert(game@.map_values(|s: &'static str| s@) =~= game_names());
        assert(gfx@.map_values(|s: &'static str| s@) =~= graphics_names());
        assert(net@.map_values(|s: &'static str| s@) =~= network_names());
        assert(office@.map_values(|s: &'static str| s@) =~= office_names());
        assert(sci@.map_values(|s: &'static str| s@) =~= science_names());
        assert(settings@.map_values(|s: &'static str| s@) =~= settings_names());
        assert(sys@.map_values(|s: &'static str| s@) =~= system_names());
        assert(util@.map_values(|s: &'static str| s@) =~= utility_names());
    }
    if in_names(c, &av) {
        "Audio/Video"
    } else if in_names(c, &dev) {
        "Development"
    } else if in_names(c, &edu) {
        "Education"
    } else if in_names(c, &game) {
        "Game"
    } else if in_names(c, &gfx) {
        "Graphics"
    } else if in_names(c, &net) {
        "Network"
    } else if in_names(c, &office) {
        "Office"
    } else if in_names(c, &sci) {
        "Science"
    } else if in_names(c, &settings) {
        "Settings"
    } else if in_names(c, &sys) {
        "System"
    } else if in_names(c, &util) {
        "Utility"
    } else {
        proof {
            reveal_strlit("");
        }
        ""
    }
}

/// The primary canonical category of a package's freedesktop categories:
/// the group of the first category that has one, `"Other"` when none has,
/// and `""` when the list is empty.
pub fn primary_category(categories: &Vec<String>) -> (r: &'static str)
    ensures
        r@ == primary_category_of(strs(categories@)),
{
    let ghost cats = strs(categories@);
    let mut i: usize = 0;
    proof {
        assert(cats.skip(0) =~= cats);
    }
    while i < categories.len()
        invariant
            i <= categories@.len(),
            cats == strs(categories@),
            i < cats.len() ==> primary_category_of(cats) == primary_category_of(cats.skip(i as int)),
            i == cats.len() && i > 0 ==> primary_category_of(cats) == "Other"@,
        decreases categories@.len() - i,
    {
        let l = label_of(categories[i].as_str());
        proof {
            assert(cats[i as int] == categories@[i as int]@);
            assert(cats.skip(i as int)[0] == cats[i as int]);
            assert(cats.skip(i as int).drop_first() =~= cats.skip(i + 1));
        }
        if !l.is_empty() {
            return l;
        }
        i = i + 1;
    }
    if categories.len() == 0 {
        proof {
            reveal_strlit("");
        }
        ""
    } else {
        "Other"
    }
}

/// The primary category is empty exactly for an empty list; otherwise it
/// is one of the canonical labels.
pub proof fn lemma_primary_category_canonical(cats: Seq<Seq<char>>)
    ensures
        cats.len() == 0 ==> primary_category_of(cats) == Seq::<char>::empty(),
        cats.len() > 0 ==> category_labels().contains(primary_category_of(cats)),
    decreases cats.len(),
{
    let labels = category_labels();
    assert(labels[0] == "Audio/Video"@);
    assert(labels[1] == "Development"@);
    assert(labels[2] == "Education"@);
    assert(labels[3] == "Game"@);
    assert(labels[4] == "Graphics"@);
    assert(labels[5] == "Network"@);
    assert(labels[6] == "Office"@);
    assert(labels[7] == "Science"@);
    assert(labels[8] == "Settings"@);
    assert(labels[9] == "System"@);
    assert(labels[10] == "Utility"@);
    assert(labels[11] == "Other"@);
    if cats.len() > 0 {
        if category_label(cats[0]).len() == 0 && cats.len() > 1 {
            lemma_primary_category_canonical(cats.drop_first());
        }
        if category_label(cats[0]).len() > 0 {
            reveal_strlit("");
        }
    }
}

} // verus!
