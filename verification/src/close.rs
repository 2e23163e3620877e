//! What happens when the window is closed: models that Ollama still holds in
//! memory are unloaded, if the user wants that.

use vstd::prelude::*;

use crate::json::{
    document_in_bytes, law_field_is_the_first_of_its_name, law_strings_are_found_at_every_place,
    parse_json_bytes, text_fields, Json, JsonTree, Member, MemberTree,
};
use crate::request::{Body, BodyModel, HttpRequest, RequestModel};
use crate::text::{
    blank, decimal, is_blank, is_white, law_trailing_copies_are_dropped, strip_trailing, texts,
    without_trailing,
};

verus! {

/// What to do on close.
#[derive(Debug, PartialEq, Eq)]
pub struct ClosePolicy {
    /// Whether to unload models.
    pub unload: bool,
    /// Where Ollama listens.
    pub base: String,
}

/// A `ClosePolicy` as a mathematical value.
pub struct PolicyModel {
    pub unload: bool,
    pub base: Seq<char>,
}

impl View for ClosePolicy {
    type V = PolicyModel;

    open spec fn view(&self) -> PolicyModel {
        PolicyModel { unload: self.unload, base: self.base@ }
    }
}

/// The policy until another is set: unload, from where Ollama listens by default.
pub open spec fn initial_policy() -> PolicyModel {
    PolicyModel { unload: true, base: "http://localhost:11434"@ }
}

/// The policy until another is set.
pub fn close_policy() -> (policy: ClosePolicy)
    ensures
        policy@ == initial_policy(),
{
    ClosePolicy { unload: true, base: "http://localhost:11434".to_owned() }
}

/// The policy after another is set. A blank address leaves the address as it was;
/// of any other the slashes at its end are dropped.
pub open spec fn changed_policy(
    policy: PolicyModel,
    unload: bool,
    base_url: Seq<char>,
) -> PolicyModel {
    PolicyModel {
        unload,
        base: if is_blank(base_url) {
            policy.base
        } else {
            strip_trailing(base_url, '/')
        },
    }
}

/// Sets the policy.
pub fn set_close_policy(policy: &mut ClosePolicy, unload: bool, base_url: &str)
    ensures
        final(policy)@ == changed_policy(old(policy)@, unload, base_url@),
        final(policy).unload == unload,
        is_blank(base_url@) ==> final(policy).base@ == old(policy).base@,
        !is_blank(base_url@) ==> final(policy).base@.is_prefix_of(base_url@),
{
    policy.unload = unload;
    proof {
        lemma_strip_trailing_prefix(base_url@, '/');
    }
    if !blank(base_url) {
        policy.base = without_trailing(base_url, '/');
    }
}

/// The request that asks which models are in memory.
pub open spec fn loaded_request(base: Seq<char>) -> RequestModel {
    RequestModel {
        method: "GET"@,
        url: base + "/api/ps"@,
        header: None,
        body: BodyModel::Empty,
        timeout_ms: Some(2000),
        user_agent: None,
    }
}

/// The request that takes one model out of memory.
pub open spec fn unload_request(base: Seq<char>, model: Seq<char>) -> RequestModel {
    RequestModel {
        method: "POST"@,
        url: base + "/api/generate"@,
        header: None,
        body: BodyModel::Document(
            JsonTree::Object(
                seq![
                    MemberTree::new("model"@, JsonTree::Text(model)),
                    MemberTree::new("keep_alive"@, JsonTree::number(0)),
                ],
            ),
        ),
        timeout_ms: Some(2000),
        user_agent: None,
    }
}

/// What to ask first when the window is closed: which models are in memory, or
/// nothing where models are not to be unloaded.
pub fn on_close(policy: &ClosePolicy) -> (request: Option<HttpRequest>)
    ensures
        match request {
            Some(r) => policy.unload && r@ == loaded_request(policy.base@) && r.url@
                == policy.base@ + "/api/ps"@ && r.method@ == "GET"@ && r.body is Empty,
            None => !policy.unload,
        },
{
    if policy.unload {
        Some(
            HttpRequest {
                method: "GET".to_owned(),
                url: policy.base.clone().concat("/api/ps"),
                header: None,
                body: Body::Empty,
                timeout_ms: Some(2000),
                user_agent: None,
            },
        )
    } else {
        None
    }
}

/// The names of the models that are in memory, as Ollama lists them.
pub open spec fn loaded_models(doc: JsonTree) -> Seq<Seq<char>> {
    text_fields(doc.array_field("models"@), "name"@)
}

/// What a list of requests stands for.
pub open spec fn requested(requests: Seq<HttpRequest>) -> Seq<RequestModel> {
    requests.map_values(|r: HttpRequest| r@)
}

/// The requests that take the models of a listing out of memory, in order.
pub fn unload_requests(base: &str, doc: &Json) -> (requests: Vec<HttpRequest>)
    ensures
        requested(requests@) == loaded_models(doc@).map_values(
            |model: Seq<char>| unload_request(base@, model),
        ),
        forall|i: int|
            0 <= i < requests@.len() ==> (#[trigger] requests@[i]).url@ == base@
                + "/api/generate"@ && requests@[i].method@ == "POST"@,
{
    let models = doc.get_texts("models", "name");
    let ghost all = loaded_models(doc@);
    let mut requests: Vec<HttpRequest> = Vec::new();
    let mut i: usize = 0;
    while i < models.len()
        invariant
            i <= models@.len(),
            all == texts(models@),
            requests@.len() == i,
            forall|j: int| 0 <= j < i ==> requests@[j]@ == unload_request(base@, all[j]),
            forall|j: int|
                0 <= j < i ==> (#[trigger] requests@[j]).url@ == base@ + "/api/generate"@
                    && requests@[j].method@ == "POST"@,
        decreases models@.len() - i,
    {
        assert(all[i as int] == models@[i as int]@);
        let payload = Json::object_of_two(
            Member::new("model", Json::text(&models[i])),
            Member::new("keep_alive", Json::number(0)),
        );
        requests.push(
            HttpRequest {
                method: "POST".to_owned(),
                url: base.to_owned().concat("/api/generate"),
                header: None,
                body: Body::Document(payload),
                timeout_ms: Some(2000),
                user_agent: None,
            },
        );
        i = i + 1;
    }
    assert(requested(requests@) =~= all.map_values(
        |model: Seq<char>| unload_request(base@, model),
    ));
    requests
}

/// The requests that follow the answer to the question which models are in
/// memory, given its bytes: none where they are no JSON document.
pub fn unload_ollama_models(base: &str, answer: &[u8]) -> (requests: Vec<HttpRequest>)
    ensures
        match document_in_bytes(answer@) {
            Some(doc) => requested(requests@) == loaded_models(doc).map_values(
                |model: Seq<char>| unload_request(base@, model),
            ),
            None => requests@.len() == 0,
        },
        forall|i: int|
            0 <= i < requests@.len() ==> (#[trigger] requests@[i]).url@ == base@
                + "/api/generate"@ && requests@[i].method@ == "POST"@,
{
    match parse_json_bytes(answer) {
        Some(doc) => unload_requests(base, &doc),
        None => Vec::new(),
    }
}

proof fn lemma_strip_trailing_prefix(s: Seq<char>, c: char)
    ensures
        strip_trailing(s, c).is_prefix_of(s),
    decreases s.len(),
{
    if s.len() > 0 && s.last() == c {
        lemma_strip_trailing_prefix(s.drop_last(), c);
        let n = strip_trailing(s, c).len() as int;
        assert(s.drop_last().subrange(0, n) == s.subrange(0, n));
    } else {
        assert(s.subrange(0, s.len() as int) == s);
    }
}

proof fn lemma_strip_trailing_all(s: Seq<char>, c: char)
    ensures
        strip_trailing(s, c).len() > 0 ==> strip_trailing(s, c).last() != c,
    decreases s.len(),
{
    if s.len() > 0 && s.last() == c {
        lemma_strip_trailing_all(s.drop_last(), c);
    }
}

/// Tells whether an address ends in no slash, so that the path of a request can
/// be put behind it.
pub open spec fn ends_in_no_slash(base: Seq<char>) -> bool {
    base.len() > 0 ==> base.last() != '/'
}

/// The policy after a run of settings, each a wish to unload and an address.
pub open spec fn policy_after(settings: Seq<(bool, Seq<char>)>) -> PolicyModel
    decreases settings.len(),
{
    if settings.len() == 0 {
        initial_policy()
    } else {
        changed_policy(
            policy_after(settings.drop_last()),
            settings.last().0,
            settings.last().1,
        )
    }
}

/// Whatever is set, the address ends in no slash.
pub proof fn law_address_ends_in_no_slash(settings: Seq<(bool, Seq<char>)>)
    ensures
        ends_in_no_slash(policy_after(settings).base),
    decreases settings.len(),
{
    if settings.len() == 0 {
        reveal_strlit("http://localhost:11434");
    } else {
        law_address_ends_in_no_slash(settings.drop_last());
        lemma_strip_trailing_all(settings.last().1, '/');
    }
}

/// Whether models are unloaded is what was set last, and what is asked for where
/// nothing was.
pub proof fn law_last_wish_counts(settings: Seq<(bool, Seq<char>)>)
    ensures
        policy_after(settings).unload == (settings.len() == 0 || settings.last().0),
{
}

proof fn lemma_address_stays(settings: Seq<(bool, Seq<char>)>, k: int)
    requires
        0 <= k <= settings.len(),
        forall|j: int| k <= j < settings.len() ==> is_blank((#[trigger] settings[j]).1),
    ensures
        policy_after(settings).base == policy_after(settings.take(k)).base,
    decreases settings.len(),
{
    if k < settings.len() {
        let head = settings.drop_last();
        assert forall|j: int| k <= j < head.len() implies is_blank((#[trigger] head[j]).1) by {
            assert(head[j] == settings[j]);
        }
        lemma_address_stays(head, k);
        assert(head.take(k) == settings.take(k));
        assert(is_blank(settings[settings.len() - 1].1));
    } else {
        assert(settings.take(k) == settings);
    }
}

/// On close Ollama is asked at the address that was set last, without the slashes
/// at its end: later settings with a blank address change nothing in that, and
/// neither does what was set before.
pub proof fn law_close_asks_at_the_address_set_last(
    settings: Seq<(bool, Seq<char>)>,
    k: int,
    root: Seq<char>,
    slashes: Seq<char>,
    at: int,
    model: Seq<char>,
)
    requires
        0 <= k < settings.len(),
        settings[k].1 == root + slashes,
        root.len() > 0 ==> root.last() != '/',
        forall|i: int| 0 <= i < slashes.len() ==> #[trigger] slashes[i] == '/',
        0 <= at < settings[k].1.len(),
        !is_white(settings[k].1[at]),
        forall|j: int, i: int|
            k < j < settings.len() && 0 <= i < settings[j].1.len() ==> is_white(
                #[trigger] settings[j].1[i],
            ),
    ensures
        loaded_request(policy_after(settings).base).url == root + "/api/ps"@,
        unload_request(policy_after(settings).base, model).url == root + "/api/generate"@,
{
    assert forall|j: int| k + 1 <= j < settings.len() implies is_blank(
        (#[trigger] settings[j]).1,
    ) by {
        assert forall|i: int| 0 <= i < settings[j].1.len() implies is_white(
            #[trigger] settings[j].1[i],
        ) by {
        }
    }
    lemma_address_stays(settings, k + 1);
    let upto = settings.take(k + 1);
    assert(upto.last() == settings[k]);
    assert(!is_blank(settings[k].1));
    law_trailing_copies_are_dropped(root, slashes, '/');
}

/// On close Ollama is asked where it listens by default, where no address was set.
pub proof fn law_close_asks_at_the_default_address(settings: Seq<(bool, Seq<char>)>)
    requires
        forall|j: int, i: int|
            0 <= j < settings.len() && 0 <= i < settings[j].1.len() ==> is_white(
                #[trigger] settings[j].1[i],
            ),
    ensures
        loaded_request(policy_after(settings).base).url == "http://localhost:11434/api/ps"@,
{
    assert forall|j: int| 0 <= j < settings.len() implies is_blank((#[trigger] settings[j]).1) by {
        assert forall|i: int| 0 <= i < settings[j].1.len() implies is_white(
            #[trigger] settings[j].1[i],
        ) by {
        }
    }
    lemma_address_stays(settings, 0);
    assert(settings.take(0).len() == 0);
    reveal_strlit("http://localhost:11434");
    reveal_strlit("/api/ps");
    reveal_strlit("http://localhost:11434/api/ps");
    assert("http://localhost:11434"@ + "/api/ps"@ == "http://localhost:11434/api/ps"@);
}

/// Different addresses are asked at different URLs, each at its own.
pub proof fn law_each_address_is_asked_at_its_own_url(x: Seq<char>, y: Seq<char>)
    ensures
        x.is_prefix_of(loaded_request(x).url),
        loaded_request(x).url.skip(x.len() as int) == "/api/ps"@,
        x != y ==> loaded_request(x).url != loaded_request(y).url,
{
    let a = loaded_request(x).url;
    let b = loaded_request(y).url;
    assert(a.subrange(0, x.len() as int) == x);
    assert(a.skip(x.len() as int) == "/api/ps"@);
    if a == b {
        assert(x.len() == y.len());
        assert(b.subrange(0, y.len() as int) == y);
    }
}

/// What is asked on close carries nothing and may take two seconds.
pub proof fn law_close_asks_without_a_body(base: Seq<char>)
    ensures
        loaded_request(base).method == "GET"@,
        loaded_request(base).body is Empty,
        loaded_request(base).header is None,
        loaded_request(base).timeout_ms == Some(2000u64),
        loaded_request(base).user_agent is None,
{
}

/// A model is taken out of memory by a request that names it and keeps it alive
/// for no time.
pub proof fn law_unloading_names_the_model(base: Seq<char>, model: Seq<char>)
    ensures
        unload_request(base, model).method == "POST"@,
        base.is_prefix_of(unload_request(base, model).url),
        unload_request(base, model).url.skip(base.len() as int) == "/api/generate"@,
        unload_request(base, model).body is Document,
        ({
            let doc = unload_request(base, model).body->Document_0;
            &&& doc.field("model"@) == Some(JsonTree::Text(model))
            &&& doc.field("keep_alive"@) == Some(JsonTree::Number(seq!['0']))
            &&& doc is Object && doc->Object_0.len() == 2
        }),
        unload_request(base, model).header is None,
        unload_request(base, model).timeout_ms == Some(2000u64),
        unload_request(base, model).user_agent is None,
{
    reveal_strlit("model");
    reveal_strlit("keep_alive");
    let url = unload_request(base, model).url;
    assert(url.subrange(0, base.len() as int) == base);
    assert(url.skip(base.len() as int) == "/api/generate"@);
    let members = unload_request(base, model).body->Document_0->Object_0;
    law_field_is_the_first_of_its_name(members, "model"@, 0);
    assert("model"@.len() != "keep_alive"@.len());
    law_field_is_the_first_of_its_name(members, "keep_alive"@, 1);
    assert(decimal(0) == seq!['0']);
}

/// Every model that Ollama lists, at whatever place, is among those to unload, and
/// no other is.
pub proof fn law_every_listed_model_is_unloaded(doc: JsonTree, name: Seq<char>)
    ensures
        loaded_models(doc).contains(name) <==> doc.field("models"@) is Some && doc.field(
            "models"@,
        )->0 is Array && exists|i: int|
            0 <= i < doc.field("models"@)->0->Array_0.len() && (#[trigger] doc.field(
                "models"@,
            )->0->Array_0[i]).field("name"@) == Some(JsonTree::Text(name)),
{
    let items = doc.array_field("models"@);
    law_strings_are_found_at_every_place(items, "name"@, name);
}

/// The models are unloaded in the order in which Ollama lists them, each as often
/// as it is listed.
pub proof fn law_models_are_unloaded_in_order(doc: JsonTree, items: Seq<JsonTree>)
    requires
        doc.field("models"@) == Some(JsonTree::Array(items)),
    ensures
        loaded_models(doc) == text_fields(items, "name"@),
{
}

/// A policy stands for its wish and its address, and a list of requests for each
/// of them, in its place.
pub proof fn law_policy_stands_for_its_wish_and_address(
    policy: ClosePolicy,
    requests: Seq<HttpRequest>,
    i: int,
)
    requires
        0 <= i < requests.len(),
    ensures
        policy@.unload == policy.unload,
        policy@.base == policy.base@,
        requested(requests).len() == requests.len(),
        requested(requests)[i] == requests[i]@,
{
}

} // verus!
