//! Where Ollama and its models are.

use vstd::prelude::*;

use crate::failure::Failure;
use crate::json::{
    law_field_is_the_first_of_its_name, Json, JsonTree, Member, MemberTree,
};
use crate::text::{
    blank, decoded, is_blank, is_white, law_blank_is_what_trims_to_nothing,
    law_pieces_are_cut_at_breaks, optional_text, pieces, split_at_any, text_in, texts, trim,
    trimmed,
};

verus! {

/// A path: where it starts, and the names that lead on from there.
#[derive(Debug, PartialEq, Eq)]
pub struct Place {
    pub base: String,
    pub names: Vec<String>,
}

/// A `Place` as a mathematical value.
pub struct PlaceModel {
    pub base: Seq<char>,
    pub names: Seq<Seq<char>>,
}

impl View for Place {
    type V = PlaceModel;

    open spec fn view(&self) -> PlaceModel {
        PlaceModel { base: self.base@, names: texts(self.names@) }
    }
}

impl Place {
    /// The place that the name `name` leads to from here.
    pub fn join(self, name: &str) -> (place: Place)
        ensures
            place@ == (PlaceModel { base: self@.base, names: self@.names.push(name@) }),
    {
        let mut place = self;
        let ghost before = place.names@;
        place.names.push(name.to_owned());
        assert(texts(place.names@) == texts(before).push(name@));
        place
    }

    /// The place `base` itself.
    fn at(base: String) -> (place: Place)
        ensures
            place@ == (PlaceModel { base: base@, names: Seq::empty() }),
    {
        let place = Place { base, names: Vec::new() };
        assert(texts(place.names@) == Seq::<Seq<char>>::empty());
        place
    }
}

/// Where the models are: the place set for them, unless that is blank, and
/// otherwise one below the home directory.
pub open spec fn models_place(custom: Option<Seq<char>>, home: Option<Seq<char>>) -> Option<
    PlaceModel,
> {
    if custom is Some && !is_blank(custom->0) {
        Some(PlaceModel { base: custom->0, names: Seq::empty() })
    } else {
        match home {
            Some(home) => Some(PlaceModel { base: home, names: seq![".ollama"@, "models"@] }),
            None => None,
        }
    }
}

/// Where the models are, given the place set for them and the home directory.
pub fn models_dir(custom: Option<String>, home: Option<String>) -> (place: Option<Place>)
    ensures
        match place {
            Some(p) => models_place(optional_text(custom), optional_text(home)) == Some(p@),
            None => models_place(optional_text(custom), optional_text(home)) is None,
        },
{
    if let Some(custom) = custom {
        if !blank(&custom) {
            return Some(Place::at(custom));
        }
    }
    match home {
        Some(home) => {
            let place = Place::at(home).join(".ollama").join("models");
            assert(place@.names == seq![".ollama"@, "models"@]);
            Some(place)
        },
        None => None,
    }
}

/// Where Ollama's own installer puts the program, given the directory for the
/// data of local programs.
pub fn default_ollama_exe(local: Option<String>) -> (place: Option<Place>)
    ensures
        match (local, place) {
            (Some(local), Some(p)) => p@ == (PlaceModel {
                base: local@,
                names: seq!["Programs"@, "Ollama"@, "ollama.exe"@],
            }),
            (None, None) => true,
            _ => false,
        },
{
    match local {
        Some(local) => {
            let place = Place::at(local).join("Programs").join("Ollama").join("ollama.exe");
            assert(place@.names == seq!["Programs"@, "Ollama"@, "ollama.exe"@]);
            Some(place)
        },
        None => None,
    }
}

/// The first of `lines` that is not blank, without the white space around it.
pub open spec fn first_line(lines: Seq<Seq<char>>) -> Option<Seq<char>>
    decreases lines.len(),
{
    if lines.len() == 0 {
        None
    } else if trim(lines[0]).len() > 0 {
        Some(trim(lines[0]))
    } else {
        first_line(lines.skip(1))
    }
}

/// The first line of `text` that is not blank, without the white space around it.
pub fn first_line_in(text: &str) -> (line: Option<String>)
    ensures
        match line {
            Some(s) => first_line(pieces(text@, "\n"@)) == Some(s@),
            None => first_line(pieces(text@, "\n"@)) is None,
        },
{
    let lines = split_at_any(text, "\n");
    let ghost all = texts(lines@);
    let mut i: usize = 0;
    assert(all.skip(0) == all);
    while i < lines.len()
        invariant
            i <= lines@.len(),
            all == texts(lines@),
            all == pieces(text@, "\n"@),
            first_line(all) == first_line(all.skip(i as int)),
        decreases lines@.len() - i,
    {
        let ghost rest = all.skip(i as int);
        assert(rest[0] == lines@[i as int]@);
        let line = trimmed(&lines[i]);
        if !line.as_str().is_empty() {
            return Some(line);
        }
        assert(rest.skip(1) == all.skip(i + 1));
        i = i + 1;
    }
    None
}

/// Where the system finds Ollama, given how the search for it ended and what it
/// printed: the first line that is not blank.
pub fn ollama_on_path(success: bool, stdout: &[u8]) -> (exe: Option<String>)
    ensures
        match exe {
            Some(s) => success && first_line(pieces(text_in(stdout@), "\n"@)) == Some(s@),
            None => success ==> first_line(pieces(text_in(stdout@), "\n"@)) is None,
        },
{
    if !success {
        return None;
    }
    first_line_in(&decoded(stdout))
}

/// The next step in the search for Ollama.
#[derive(Debug, PartialEq, Eq)]
pub enum ExeStep {
    /// It is here.
    Found(String),
    /// Look where its own installer puts it.
    CheckDefault,
    /// Ask the system where it is.
    AskSystem,
    /// It is nowhere.
    NotFound,
}

/// An `ExeStep` as a mathematical value.
pub enum SearchStep {
    Found(Seq<char>),
    CheckDefault,
    AskSystem,
    NotFound,
}

impl View for ExeStep {
    type V = SearchStep;

    open spec fn view(&self) -> SearchStep {
        match self {
            ExeStep::Found(s) => SearchStep::Found(s@),
            ExeStep::CheckDefault => SearchStep::CheckDefault,
            ExeStep::AskSystem => SearchStep::AskSystem,
            ExeStep::NotFound => SearchStep::NotFound,
        }
    }
}

/// The step with which a search starts.
pub open spec fn first_step(given: Option<Seq<char>>) -> SearchStep {
    if given is Some && !is_blank(given->0) {
        SearchStep::Found(given->0)
    } else {
        SearchStep::CheckDefault
    }
}

/// The step that follows the look at the default place.
pub open spec fn step_after_default(found: Option<Seq<char>>) -> SearchStep {
    match found {
        Some(s) => SearchStep::Found(s),
        None => SearchStep::AskSystem,
    }
}

/// The step that follows the answer of the system.
pub open spec fn step_after_system(found: Option<Seq<char>>) -> SearchStep {
    match found {
        Some(s) => SearchStep::Found(s),
        None => SearchStep::NotFound,
    }
}

/// Starts a search, given the path that the front end names, if any: a blank one
/// names nothing.
pub fn search(given: Option<String>) -> (step: ExeStep)
    ensures
        step@ == first_step(optional_text(given)),
{
    if let Some(path) = given {
        if !blank(&path) {
            return ExeStep::Found(path);
        }
    }
    ExeStep::CheckDefault
}

/// Goes on with a search after the look at the default place.
pub fn search_after_default(found: Option<String>) -> (step: ExeStep)
    ensures
        step@ == step_after_default(optional_text(found)),
{
    match found {
        Some(path) => ExeStep::Found(path),
        None => ExeStep::AskSystem,
    }
}

/// Goes on with a search after the answer of the system.
pub fn search_after_system(found: Option<String>) -> (step: ExeStep)
    ensures
        step@ == step_after_system(optional_text(found)),
{
    match found {
        Some(path) => ExeStep::Found(path),
        None => ExeStep::NotFound,
    }
}

/// Where a search that starts at `step` ends, given what stands at the default
/// place and what the system answers.
pub open spec fn search_from(
    step: SearchStep,
    default: Option<Seq<char>>,
    system: Option<Seq<char>>,
) -> Option<Seq<char>> {
    match step {
        SearchStep::Found(s) => Some(s),
        SearchStep::CheckDefault => match step_after_default(default) {
            SearchStep::Found(s) => Some(s),
            _ => match step_after_system(system) {
                SearchStep::Found(s) => Some(s),
                _ => None,
            },
        },
        SearchStep::AskSystem => match step_after_system(system) {
            SearchStep::Found(s) => Some(s),
            _ => None,
        },
        SearchStep::NotFound => None,
    }
}

/// A search ends at the path that was named, else at the default place, else
/// where the system says; and fails just where there is none of these.
pub proof fn law_search_order(
    given: Option<Seq<char>>,
    default: Option<Seq<char>>,
    system: Option<Seq<char>>,
)
    ensures
        search_from(first_step(given), default, system) == if given is Some && !is_blank(given->0) {
            given
        } else if default is Some {
            default
        } else {
            system
        },
{
}

/// A string, or null where there is none.
pub open spec fn text_or_null(s: Option<Seq<char>>) -> JsonTree {
    match s {
        Some(s) => JsonTree::Text(s),
        None => JsonTree::Null,
    }
}

/// Whether Ollama is installed, in the form in which it is handed on.
pub open spec fn detection(supported: bool, exe: Option<Seq<char>>) -> JsonTree {
    JsonTree::Object(
        seq![
            MemberTree::new("supported"@, JsonTree::Bool(supported)),
            MemberTree::new("installed"@, JsonTree::Bool(exe is Some)),
            MemberTree::new("exe"@, text_or_null(exe)),
        ],
    )
}

fn detection_payload(supported: bool, exe: Option<String>) -> (json: Json)
    ensures
        json@ == detection(supported, optional_text(exe)),
{
    let installed = exe.is_some();
    let path = match exe {
        Some(s) => Json::Text(s),
        None => Json::Null,
    };
    Json::object_of_three(
        Member::new("supported", Json::Bool(supported)),
        Member::new("installed", Json::Bool(installed)),
        Member::new("exe", path),
    )
}

/// Whether Ollama is installed, given where a search for it ended.
pub fn ollama_detect(exe: Option<String>) -> (json: Json)
    ensures
        json@ == detection(true, optional_text(exe)),
{
    detection_payload(true, exe)
}

/// What is handed on where a search for Ollama is not supported.
pub fn detection_unsupported() -> (json: Json)
    ensures
        json@ == detection(false, None),
{
    detection_payload(false, None)
}

/// The program to start as the server, given where a search for it ended.
pub fn ollama_start(exe: Option<String>) -> (program: Result<String, Failure>)
    ensures
        match program {
            Ok(s) => exe == Some(s),
            Err(e) => exe is None && e is NotInstalled,
        },
{
    match exe {
        Some(program) => Ok(program),
        None => Err(Failure::NotInstalled),
    }
}

proof fn lemma_pieces_of_blank_text(s: Seq<char>, breaks: Seq<char>)
    requires
        forall|i: int| 0 <= i < s.len() ==> is_white(#[trigger] s[i]),
    ensures
        pieces(s, breaks).len() > 0,
        forall|k: int| 0 <= k < pieces(s, breaks).len() ==> is_blank(#[trigger] pieces(s, breaks)[k]),
    decreases s.len(),
{
    if s.len() > 0 {
        let head = s.drop_last();
        let before = pieces(head, breaks);
        let all = pieces(s, breaks);
        assert forall|i: int| 0 <= i < head.len() implies is_white(#[trigger] head[i]) by {
            assert(head[i] == s[i]);
        }
        lemma_pieces_of_blank_text(head, breaks);
        assert(is_white(s[s.len() - 1]));
        assert forall|k: int| 0 <= k < all.len() implies is_blank(#[trigger] all[k]) by {
            if k < before.len() - 1 {
                assert(all[k] == before[k]);
            } else if breaks.contains(s.last()) {
                if k < before.len() {
                    assert(all[k] == before[k]);
                }
            } else {
                let last = before[before.len() - 1];
                assert(is_blank(last));
                assert(all[k] == last.push(s.last()));
                assert forall|i: int| 0 <= i < all[k].len() implies is_white(#[trigger] all[k][i]) by {
                    if i < last.len() {
                        assert(all[k][i] == last[i]);
                    }
                }
            }
        }
    }
}

proof fn lemma_first_line_behind_blank_ones(blank_lines: Seq<Seq<char>>, lines: Seq<Seq<char>>)
    requires
        forall|k: int| 0 <= k < blank_lines.len() ==> is_blank(#[trigger] blank_lines[k]),
    ensures
        first_line(blank_lines + lines) == first_line(lines),
    decreases blank_lines.len(),
{
    if blank_lines.len() > 0 {
        let others = blank_lines.skip(1);
        assert forall|k: int| 0 <= k < others.len() implies is_blank(#[trigger] others[k]) by {
            assert(others[k] == blank_lines[k + 1]);
        }
        assert((blank_lines + lines)[0] == blank_lines[0]);
        assert((blank_lines + lines).skip(1) == others + lines);
        law_blank_is_what_trims_to_nothing(blank_lines[0]);
        lemma_first_line_behind_blank_ones(others, lines);
    } else {
        assert(blank_lines + lines == lines);
    }
}

/// Of what the system prints, the first line that is not blank counts, without the
/// white space around it, whatever follows it.
pub proof fn law_first_line_that_is_not_blank_counts(
    a: Seq<char>,
    line: Seq<char>,
    at: int,
    b: Seq<char>,
)
    requires
        forall|i: int| 0 <= i < a.len() ==> is_white(#[trigger] a[i]),
        a.len() > 0 ==> a.last() == '\n',
        forall|i: int| 0 <= i < line.len() ==> #[trigger] line[i] != '\n',
        0 <= at < line.len(),
        !is_white(line[at]),
        b.len() > 0 ==> b[0] == '\n',
    ensures
        first_line(pieces(a + line + b, "\n"@)) == Some(trim(line)),
{
    reveal_strlit("\n");
    let breaks = "\n"@;
    assert(breaks[0] == '\n');
    assert forall|i: int| 0 <= i < line.len() implies !breaks.contains(#[trigger] line[i]) by {
        assert(line[i] != '\n');
    }
    law_blank_is_what_trims_to_nothing(line);
    let rest = line + b;
    law_pieces_are_cut_at_breaks(line, '\n', b.skip(1), breaks);
    if b.len() > 0 {
        assert(rest == line + seq!['\n'] + b.skip(1));
        assert(pieces(rest, breaks)[0] == line);
    } else {
        assert(rest == line);
        assert(pieces(rest, breaks)[0] == line);
    }
    assert(first_line(pieces(rest, breaks)) == Some(trim(line)));
    if a.len() > 0 {
        let head = a.drop_last();
        assert forall|i: int| 0 <= i < head.len() implies is_white(#[trigger] head[i]) by {
            assert(head[i] == a[i]);
        }
        law_pieces_are_cut_at_breaks(head, '\n', rest, breaks);
        lemma_pieces_of_blank_text(head, breaks);
        lemma_first_line_behind_blank_ones(pieces(head, breaks), pieces(rest, breaks));
        assert(a == head.push('\n'));
        assert(a + line + b == head + seq!['\n'] + rest);
    } else {
        assert(a + line + b == rest);
    }
}

/// The models are where they were set to be, just as it was set; and only where
/// nothing or blank text was set, below the home directory, if there is one.
pub proof fn law_where_the_models_are(
    custom: Seq<char>,
    at: int,
    blank_text: Seq<char>,
    home: Option<Seq<char>>,
)
    requires
        0 <= at < custom.len(),
        !is_white(custom[at]),
        forall|i: int| 0 <= i < blank_text.len() ==> is_white(#[trigger] blank_text[i]),
    ensures
        models_place(Some(custom), home) is Some,
        models_place(Some(custom), home)->0.base == custom,
        models_place(Some(custom), home)->0.names.len() == 0,
        models_place(Some(blank_text), home) == models_place(None, home),
        models_place(None, home) is Some <==> home is Some,
        home is Some ==> models_place(None, home)->0.base == home->0 && models_place(
            None,
            home,
        )->0.names == seq![".ollama"@, "models"@],
{
}

/// What is handed on of a search says whether it is supported, whether Ollama was
/// found, and where.
pub proof fn law_what_is_handed_on_of_a_search(supported: bool, exe: Seq<char>)
    ensures
        detection(supported, Some(exe)).field("supported"@) == Some(JsonTree::Bool(supported)),
        detection(supported, Some(exe)).field("installed"@) == Some(JsonTree::Bool(true)),
        detection(supported, Some(exe)).field("exe"@) == Some(JsonTree::Text(exe)),
        detection(supported, None).field("supported"@) == Some(JsonTree::Bool(supported)),
        detection(supported, None).field("installed"@) == Some(JsonTree::Bool(false)),
        detection(supported, None).field("exe"@) == Some(JsonTree::Null),
        detection(supported, Some(exe)) is Object,
        detection(supported, Some(exe))->Object_0.len() == 3,
        detection(supported, None) is Object,
        detection(supported, None)->Object_0.len() == 3,
{
    reveal_strlit("supported");
    reveal_strlit("installed");
    reveal_strlit("exe");
    assert("supported"@[0] != "installed"@[0]);
    assert("exe"@.len() != "supported"@.len() && "exe"@.len() != "installed"@.len());
    let found = detection(supported, Some(exe))->Object_0;
    law_field_is_the_first_of_its_name(found, "supported"@, 0);
    law_field_is_the_first_of_its_name(found, "installed"@, 1);
    law_field_is_the_first_of_its_name(found, "exe"@, 2);
    let missing = detection(supported, None)->Object_0;
    law_field_is_the_first_of_its_name(missing, "supported"@, 0);
    law_field_is_the_first_of_its_name(missing, "installed"@, 1);
    law_field_is_the_first_of_its_name(missing, "exe"@, 2);
}

/// Places and steps stand for all that they hold.
pub proof fn law_places_stand_for_their_names(place: Place, i: int, s: String)
    requires
        0 <= i < place.names@.len(),
    ensures
        place@.base == place.base@,
        place@.names.len() == place.names@.len(),
        place@.names[i] == place.names@[i]@,
        ExeStep::Found(s)@ == SearchStep::Found(s@),
        ExeStep::CheckDefault@ == SearchStep::CheckDefault,
        ExeStep::AskSystem@ == SearchStep::AskSystem,
        ExeStep::NotFound@ == SearchStep::NotFound,
{
}

/// Text of nothing but white space names no program, whatever its lines.
pub proof fn law_nothing_is_found_in_blank_text(s: Seq<char>)
    requires
        forall|i: int| 0 <= i < s.len() ==> is_white(#[trigger] s[i]),
    ensures
        first_line(pieces(s, "\n"@)) is None,
{
    let lines = pieces(s, "\n"@);
    lemma_pieces_of_blank_text(s, "\n"@);
    lemma_first_line_behind_blank_ones(lines, Seq::empty());
    assert(lines + Seq::<Seq<char>>::empty() == lines);
}

} // verus!
