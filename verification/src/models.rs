//! Finding the four checkpoints: a local directory, the shared Hugging Face cache, or the hub.
//!
//! The repository lays its files out the same way ComfyUI does, so one relative path names a file in
//! either place. A local directory is tried first, then whatever is already in the shared cache, and only
//! then the network. That order means an existing download is reused wherever it lives, and nothing is
//! fetched twice.
use vstd::prelude::*;
use vstd::string::StringExecFns;

use crate::text;

verus! {

pub const REPO_OWNER: &'static str = "Comfy-Org";

pub const REPO_NAME: &'static str = "MiniMax-H3";

pub const DIT_FL2VA: &'static str =
    "diffusion_models/minimax_h3_fl2va_pruned_int8_convrot.safetensors";

pub const DIT_REF2VA: &'static str =
    "diffusion_models/minimax_h3_ref2va_pruned_int8_convrot.safetensors";

pub const TE: &'static str = "text_encoders/qwen3vl_32b_minimax_h3_int8_convrot.safetensors";

pub const VIDEO_VAE: &'static str = "vae/minimax_h3_video_vae_fp16.safetensors";

pub const AUDIO_VAE: &'static str = "vae/minimax_h3_audio_vae_fp32.safetensors";

#[derive(Debug)]
pub enum Error {
    NotFound { name: String, tried: String },
    Hub { name: String, source: String },
}

/// An error, in text.
pub enum ErrorView {
    NotFound { name: Seq<char>, tried: Seq<char> },
    Hub { name: Seq<char>, source: Seq<char> },
}

impl View for Error {
    type V = ErrorView;

    open spec fn view(&self) -> ErrorView {
        match self {
            Error::NotFound { name, tried } => ErrorView::NotFound { name: name@, tried: tried@ },
            Error::Hub { name, source } => ErrorView::Hub { name: name@, source: source@ },
        }
    }
}

impl Error {
    pub open spec fn text(self) -> Seq<char> {
        match self {
            Error::NotFound { name, tried } => name@ + " not found: "@ + tried@,
            Error::Hub { name, source } => name@ + ": "@ + source@,
        }
    }

    /// What the error says.
    pub fn message(&self) -> (text: String)
        ensures
            text@ == self.text(),
    {
        match self {
            Error::NotFound { name, tried } => text::cat3(
                name.as_str(),
                " not found: ",
                tried.as_str(),
            ),
            Error::Hub { name, source } => text::cat3(name.as_str(), ": ", source.as_str()),
        }
    }
}

/// Where checkpoints are looked for, in order.
#[derive(Debug)]
pub struct Resolver {
    dir: Option<String>,
    revision: Option<String>,
    /// When false, only files already on disk are used and the hub is never contacted.
    download: bool,
}

/// What has been learned of one checkpoint so far; nothing is known before it was asked for.
#[derive(Debug)]
pub struct Answers {
    /// whether it is a file of the local directory
    pub local: Option<bool>,
    /// where the shared cache has it, if it does
    pub cached: Option<Option<String>>,
    /// where the hub put it, or what it said
    pub fetched: Option<std::result::Result<String, String>>,
}

/// What to do next for a checkpoint.
#[derive(Debug)]
pub enum Look {
    /// see whether this is a file
    Local(String),
    /// ask the shared cache, without the network
    Cached,
    /// fetch it into the shared cache
    Fetch,
    Found(String),
    /// it is nowhere on disk, and that is no error
    Nowhere,
    Failed(Error),
}

/// What to do next, in text.
pub enum LookView {
    Local(Seq<char>),
    Cached,
    Fetch,
    Found(Seq<char>),
    Nowhere,
    Failed(ErrorView),
}

impl View for Look {
    type V = LookView;

    open spec fn view(&self) -> LookView {
        match self {
            Look::Local(path) => LookView::Local(path@),
            Look::Cached => LookView::Cached,
            Look::Fetch => LookView::Fetch,
            Look::Found(path) => LookView::Found(path@),
            Look::Nowhere => LookView::Nowhere,
            Look::Failed(e) => LookView::Failed(e@),
        }
    }
}

/// Where a checkpoint that is nowhere on disk was looked for.
pub open spec fn tried_in(dir: Option<Seq<char>>) -> Seq<char> {
    (match dir {
        Some(dir) => "not under "@ + dir,
        None => "no models directory (--models or H3_MODELS)"@,
    }) + ", and not in the Hugging Face cache for Comfy-Org/MiniMax-H3"@
}

/// What to do next for a checkpoint that may be anywhere on disk.
pub open spec fn on_disk(dir: Option<Seq<char>>, relative: Seq<char>, answers: Answers) -> LookView {
    if dir is Some && answers.local is None {
        LookView::Local(text::path_under(dir->0, relative))
    } else if dir is Some && answers.local == Some(true) {
        LookView::Found(text::path_under(dir->0, relative))
    } else {
        match answers.cached {
            None => LookView::Cached,
            Some(Some(path)) => LookView::Found(path@),
            Some(None) => LookView::Nowhere,
        }
    }
}

/// What to do next for a checkpoint.
pub open spec fn next_look(
    dir: Option<Seq<char>>,
    download: bool,
    relative: Seq<char>,
    answers: Answers,
) -> LookView {
    let look = on_disk(dir, relative, answers);
    if look is Nowhere {
        if !download {
            LookView::Failed(ErrorView::NotFound { name: relative, tried: tried_in(dir) })
        } else {
            match answers.fetched {
                None => LookView::Fetch,
                Some(Ok(path)) => LookView::Found(path@),
                Some(Err(source)) => LookView::Failed(
                    ErrorView::Hub { name: relative, source: source@ },
                ),
            }
        }
    } else {
        look
    }
}

impl Resolver {
    pub closed spec fn directory(&self) -> Option<Seq<char>> {
        match self.dir {
            Some(dir) => Some(dir@),
            None => None,
        }
    }

    pub closed spec fn downloads(&self) -> bool {
        self.download
    }

    pub closed spec fn pinned(&self) -> Option<String> {
        self.revision
    }

    /// The models setting where it is not empty, else `comfy-models` in the home directory where that is a
    /// directory; downloads allowed.
    pub fn new(models: Option<&str>, home: Option<&str>, is_dir: bool) -> (resolver: Self)
        ensures
            resolver.directory() == if models is Some && models->0@.len() > 0 {
                Some(models->0@)
            } else if home is Some && is_dir {
                Some(text::path_under(home->0@, "comfy-models"@))
            } else {
                None
            },
            resolver.downloads(),
            resolver.pinned() is None,
    {
        if let Some(models) = models {
            proof {
                reveal_strlit("");
                assert(models@.len() == 0 ==> models@ =~= ""@);
            }
            if !text::same(models, "") {
                return Resolver {
                    dir: Some(String::from_str(models)),
                    revision: None,
                    download: true,
                };
            }
        }
        let dir = match home {
            Some(home) => if is_dir {
                Some(text::join_path(home, "comfy-models"))
            } else {
                None
            },
            None => None,
        };
        Resolver { dir, revision: None, download: true }
    }

    /// The revision that is asked for, where one is pinned.
    pub fn pin(&self) -> (revision: Option<&String>)
        ensures
            match revision {
                Some(revision) => self.pinned() == Some(*revision),
                None => self.pinned() is None,
            },
    {
        match &self.revision {
            Some(revision) => Some(revision),
            None => None,
        }
    }

    /// Where checkpoints are looked for by default: the models setting where it is not empty, else
    /// `comfy-models` in the home directory.
    pub fn default_root(models: Option<&str>, home: &str) -> (root: String)
        ensures
            root@ == if models is Some && models->0@.len() > 0 {
                models->0@
            } else {
                text::path_under(home@, "comfy-models"@)
            },
    {
        if let Some(models) = models {
            proof {
                reveal_strlit("");
                assert(models@.len() == 0 ==> models@ =~= ""@);
            }
            if !text::same(models, "") {
                return String::from_str(models);
            }
        }
        text::join_path(home, "comfy-models")
    }

    pub fn with_dir(self, dir: Option<String>) -> (resolver: Self)
        ensures
            resolver.directory() == match dir {
                Some(dir) => Some(dir@),
                None => self.directory(),
            },
            resolver.downloads() == self.downloads(),
            resolver.pinned() == self.pinned(),
    {
        match dir {
            Some(dir) => Resolver { dir: Some(dir), revision: self.revision, download: self.download },
            None => self,
        }
    }

    pub fn revision(self, revision: Option<String>) -> (resolver: Self)
        ensures
            resolver.directory() == self.directory(),
            resolver.downloads() == self.downloads(),
            resolver.pinned() == revision,
    {
        Resolver { dir: self.dir, revision, download: self.download }
    }

    /// Use only what is already on disk. A missing file is then an error rather than a download.
    pub fn offline(self, offline: bool) -> (resolver: Self)
        ensures
            resolver.directory() == self.directory(),
            resolver.downloads() == !offline,
            resolver.pinned() == self.pinned(),
    {
        Resolver { dir: self.dir, revision: self.revision, download: !offline }
    }

    /// As [`Resolver::find`], but a file that is simply absent is not an error: the ref2va checkpoint is
    /// optional, and asking for it must not start a 21 GB download.
    pub fn find_local(&self, relative: &str, answers: &Answers) -> (look: Look)
        ensures
            look@ == on_disk(self.directory(), relative@, *answers),
    {
        if let Some(dir) = &self.dir {
            let path = text::join_path(dir.as_str(), relative);
            match answers.local {
                None => {
                    return Look::Local(path);
                },
                Some(true) => {
                    return Look::Found(path);
                },
                Some(false) => {},
            }
        }
        match &answers.cached {
            None => Look::Cached,
            Some(Some(path)) => Look::Found(path.clone()),
            Some(None) => Look::Nowhere,
        }
    }

    /// What to do next for the path of one checkpoint, fetching it into the shared cache if it is not
    /// already somewhere.
    pub fn find(&self, relative: &str, answers: &Answers) -> (look: Look)
        ensures
            look@ == next_look(self.directory(), self.downloads(), relative@, *answers),
    {
        match self.find_local(relative, answers) {
            Look::Nowhere => {
                if !self.download {
                    return Look::Failed(self.missing(relative));
                }
                match &answers.fetched {
                    None => Look::Fetch,
                    Some(Ok(path)) => Look::Found(path.clone()),
                    Some(Err(source)) => Look::Failed(
                        Error::Hub { name: String::from_str(relative), source: source.clone() },
                    ),
                }
            },
            look => look,
        }
    }

    fn missing(&self, relative: &str) -> (error: Error)
        ensures
            error@ == (ErrorView::NotFound { name: relative@, tried: tried_in(self.directory()) }),
    {
        let mut tried = match &self.dir {
            Some(dir) => text::cat2("not under ", dir.as_str()),
            None => String::from_str("no models directory (--models or H3_MODELS)"),
        };
        tried.append(", and not in the Hugging Face cache for Comfy-Org/MiniMax-H3");
        Error::NotFound { name: String::from_str(relative), tried }
    }
}

/// The four checkpoints a session needs.
#[derive(Debug)]
pub struct Checkpoints {
    pub dit: String,
    pub te: String,
    pub video_vae: String,
    pub audio_vae: String,
}

/// What has been learned of each of the four.
#[derive(Debug)]
pub struct AllAnswers {
    pub dit: Answers,
    pub te: Answers,
    pub video_vae: Answers,
    pub audio_vae: Answers,
}

/// One of the four checkpoints.
#[derive(Clone, Copy, Debug, PartialEq, Eq, Structural)]
pub enum Which {
    Dit,
    Te,
    VideoVae,
    AudioVae,
}

/// All four, or what to do next, and for which.
#[derive(Debug)]
pub enum Resolved {
    All(Checkpoints),
    Next(Which, Look),
}

impl Checkpoints {
    /// Resolves all four, one after the other, with the caller naming which DiT it wants. Choosing
    /// between the base and the reference-conditioned checkpoint is policy, so it is not decided here.
    pub fn resolve(resolver: &Resolver, dit: &str, answers: &AllAnswers) -> (resolved: Resolved)
        ensures
            ({
                let (dir, download) = (resolver.directory(), resolver.downloads());
                let a = next_look(dir, download, dit@, answers.dit);
                let b = next_look(dir, download, TE@, answers.te);
                let c = next_look(dir, download, VIDEO_VAE@, answers.video_vae);
                let d = next_look(dir, download, AUDIO_VAE@, answers.audio_vae);
                if a !is Found {
                    resolved matches Resolved::Next(which, look) && which == Which::Dit && look@ == a
                } else if b !is Found {
                    resolved matches Resolved::Next(which, look) && which == Which::Te && look@ == b
                } else if c !is Found {
                    resolved matches Resolved::Next(which, look) && which == Which::VideoVae && look@
                        == c
                } else if d !is Found {
                    resolved matches Resolved::Next(which, look) && which == Which::AudioVae && look@
                        == d
                } else {
                    &&& resolved matches Resolved::All(all)
                    &&& a == LookView::Found(all.dit@)
                    &&& b == LookView::Found(all.te@)
                    &&& c == LookView::Found(all.video_vae@)
                    &&& d == LookView::Found(all.audio_vae@)
                }
            }),
    {
        let dit = match resolver.find(dit, &answers.dit) {
            Look::Found(path) => path,
            look => {
                return Resolved::Next(Which::Dit, look);
            },
        };
        let te = match resolver.find(TE, &answers.te) {
            Look::Found(path) => path,
            look => {
                return Resolved::Next(Which::Te, look);
            },
        };
        let video_vae = match resolver.find(VIDEO_VAE, &answers.video_vae) {
            Look::Found(path) => path,
            look => {
                return Resolved::Next(Which::VideoVae, look);
            },
        };
        let audio_vae = match resolver.find(AUDIO_VAE, &answers.audio_vae) {
            Look::Found(path) => path,
            look => {
                return Resolved::Next(Which::AudioVae, look);
            },
        };
        Resolved::All(Checkpoints { dit, te, video_vae, audio_vae })
    }
}

/// The network is the last resort: a checkpoint is fetched only where downloads are allowed, the local
/// directory is known not to have it, and so is the shared cache; and an optional one is never fetched.
pub proof fn law_nothing_on_disk_is_fetched(
    dir: Option<Seq<char>>,
    download: bool,
    relative: Seq<char>,
    answers: Answers,
)
    ensures
        next_look(dir, download, relative, answers) is Fetch ==> {
            &&& download
            &&& dir is Some ==> answers.local == Some(false)
            &&& answers.cached == Some(None::<String>)
            &&& answers.fetched is None
        },
        on_disk(dir, relative, answers) !is Fetch,
{
}

/// A file of the local directory is used, whatever else is known of it.
pub proof fn law_a_local_directory_wins(
    dir: Seq<char>,
    download: bool,
    relative: Seq<char>,
    answers: Answers,
)
    requires
        answers.local == Some(true),
    ensures
        next_look(Some(dir), download, relative, answers) == LookView::Found(
            text::path_under(dir, relative),
        ),
{
}

} // verus!
