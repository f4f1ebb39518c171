//! Automatic categorisation of wordlists by the words found in their paths.
use vstd::prelude::*;
use vstd::utf8::is_ascii_chars;
use crate::text::{ascii_lowercase, chars_of, contains_chars, contains_seq, matches_at, occurs_at, views};

verus! {

/// The lower-case form that `str::to_lowercase` gives a string.
pub uninterp spec fn unicode_lowercase(s: Seq<char>) -> Seq<char>;

/// `str::to_lowercase`. Its result is named by `unicode_lowercase`; on an all-ASCII
/// string the documentation of `to_lowercase` makes it the ASCII lower-casing.
/// Nothing is said of the Unicode case tables themselves.
#[verifier::external_body]
pub(crate) fn to_lowercase(s: &str) -> (r: String)
    ensures
        r@ == unicode_lowercase(s@),
        is_ascii_chars(s@) ==> r@ == ascii_lowercase(s@),
{
    s.to_lowercase()
}

/// Characters that separate the words of a directory name ("Web-Content", "Web_Shells").
pub open spec fn is_separator(c: char) -> bool {
    c == '-' || c == '_'
}

/// A path with its word separators removed, so that "web-content" reads "webcontent".
pub open spec fn strip_separators(s: Seq<char>) -> Seq<char>
    decreases s.len(),
{
    if s.len() == 0 {
        s
    } else {
        let p = strip_separators(s.drop_last());
        if is_separator(s.last()) {
            p
        } else {
            p.push(s.last())
        }
    }
}

/// The tags of the taxonomy.
#[derive(Clone, Copy, PartialEq, Eq, Structural, Debug)]
pub enum Tag {
    Discovery,
    WebContent,
    Web,
    WebShells,
    Dns,
    Infra,
    Snmp,
    Mainframe,
    Iot,
    Ports,
    Fuzzing,
    Xss,
    Injection,
    Sqli,
    Lfi,
    Ssrf,
    Ssti,
    Xxe,
    Cmdi,
    Passwords,
    Creds,
    Leaked,
    Permutations,
    Usernames,
    Patterns,
    Payloads,
    Ai,
}

/// The name of a tag.
pub open spec fn tag_name(t: Tag) -> Seq<char> {
    match t {
        Tag::Discovery => "discovery"@,
        Tag::WebContent => "webcontent"@,
        Tag::Web => "web"@,
        Tag::WebShells => "webshells"@,
        Tag::Dns => "dns"@,
        Tag::Infra => "infra"@,
        Tag::Snmp => "snmp"@,
        Tag::Mainframe => "mainframe"@,
        Tag::Iot => "iot"@,
        Tag::Ports => "ports"@,
        Tag::Fuzzing => "fuzzing"@,
        Tag::Xss => "xss"@,
        Tag::Injection => "injection"@,
        Tag::Sqli => "sqli"@,
        Tag::Lfi => "lfi"@,
        Tag::Ssrf => "ssrf"@,
        Tag::Ssti => "ssti"@,
        Tag::Xxe => "xxe"@,
        Tag::Cmdi => "cmdi"@,
        Tag::Passwords => "passwords"@,
        Tag::Creds => "creds"@,
        Tag::Leaked => "leaked"@,
        Tag::Permutations => "permutations"@,
        Tag::Usernames => "usernames"@,
        Tag::Patterns => "patterns"@,
        Tag::Payloads => "payloads"@,
        Tag::Ai => "ai"@,
    }
}

/// What the taxonomy says a tag implies directly.
pub open spec fn implies(t: Tag, u: Tag) -> bool {
    match t {
        Tag::WebContent => u == Tag::Web || u == Tag::Discovery,
        Tag::WebShells => u == Tag::Web,
        Tag::Dns | Tag::Infra => u == Tag::Discovery,
        Tag::Snmp | Tag::Mainframe | Tag::Iot | Tag::Ports => u == Tag::Infra,
        Tag::Xss | Tag::Sqli | Tag::Lfi | Tag::Ssrf | Tag::Ssti | Tag::Xxe | Tag::Cmdi => u == Tag::Fuzzing || u
            == Tag::Injection,
        Tag::Creds | Tag::Leaked | Tag::Permutations => u == Tag::Passwords,
        _ => false,
    }
}

/// A tag followed by everything it implies, directly or not, in the order they are attached.
pub open spec fn closure_list(t: Tag) -> Seq<Tag> {
    match t {
        Tag::WebContent => seq![Tag::WebContent, Tag::Web, Tag::Discovery],
        Tag::WebShells => seq![Tag::WebShells, Tag::Web],
        Tag::Dns => seq![Tag::Dns, Tag::Discovery],
        Tag::Infra => seq![Tag::Infra, Tag::Discovery],
        Tag::Snmp => seq![Tag::Snmp, Tag::Infra, Tag::Discovery],
        Tag::Mainframe => seq![Tag::Mainframe, Tag::Infra, Tag::Discovery],
        Tag::Iot => seq![Tag::Iot, Tag::Infra, Tag::Discovery],
        Tag::Ports => seq![Tag::Ports, Tag::Infra, Tag::Discovery],
        Tag::Xss => seq![Tag::Xss, Tag::Fuzzing, Tag::Injection],
        Tag::Sqli => seq![Tag::Sqli, Tag::Fuzzing, Tag::Injection],
        Tag::Lfi => seq![Tag::Lfi, Tag::Fuzzing, Tag::Injection],
        Tag::Ssrf => seq![Tag::Ssrf, Tag::Fuzzing, Tag::Injection],
        Tag::Ssti => seq![Tag::Ssti, Tag::Fuzzing, Tag::Injection],
        Tag::Xxe => seq![Tag::Xxe, Tag::Fuzzing, Tag::Injection],
        Tag::Cmdi => seq![Tag::Cmdi, Tag::Fuzzing, Tag::Injection],
        Tag::Creds => seq![Tag::Creds, Tag::Passwords],
        Tag::Leaked => seq![Tag::Leaked, Tag::Passwords],
        Tag::Permutations => seq![Tag::Permutations, Tag::Passwords],
        _ => seq![t],
    }
}

/// The words (separators removed) whose occurrence in a path selects a tag by rule. `web`
/// and `injection` come only by implication; `payloads` and `ai` have rules of their own.
pub open spec fn rule_words(t: Tag) -> Seq<Seq<char>> {
    match t {
        Tag::Creds => seq!["creds"@, "credentials"@],
        Tag::Web | Tag::Injection | Tag::Payloads | Tag::Ai => Seq::empty(),
        _ => seq![tag_name(t)],
    }
}

/// The order in which the rules are tried (the order of the taxonomy).
pub open spec fn rule_order() -> Seq<Tag> {
    seq![
        Tag::Discovery, Tag::WebContent, Tag::WebShells, Tag::Dns, Tag::Infra, Tag::Snmp, Tag::Mainframe,
        Tag::Iot, Tag::Ports, Tag::Fuzzing, Tag::Xss, Tag::Sqli, Tag::Lfi, Tag::Ssrf, Tag::Ssti, Tag::Xxe,
        Tag::Cmdi, Tag::Passwords, Tag::Creds, Tag::Leaked, Tag::Permutations, Tag::Usernames, Tag::Patterns,
    ]
}

/// Whether one of a tag's rule words occurs in the normalised path.
pub open spec fn matches_rule(norm: Seq<char>, t: Tag) -> bool {
    exists|k: int| 0 <= k < rule_words(t).len() && contains_seq(norm, #[trigger] rule_words(t)[k])
}

/// `tags` with `t` appended unless it is already there.
pub open spec fn add_t(tags: Seq<Tag>, t: Tag) -> Seq<Tag> {
    if tags.contains(t) {
        tags
    } else {
        tags.push(t)
    }
}

/// `tags` with each of `ts` added in turn.
pub open spec fn add_ts(tags: Seq<Tag>, ts: Seq<Tag>) -> Seq<Tag>
    decreases ts.len(),
{
    if ts.len() == 0 {
        tags
    } else {
        add_t(add_ts(tags, ts.drop_last()), ts.last())
    }
}

/// The tags that the rules of `order` give a normalised path: each rule that matches adds
/// its tag and everything the tag implies.
pub open spec fn apply_rules(norm: Seq<char>, order: Seq<Tag>) -> Seq<Tag>
    decreases order.len(),
{
    if order.len() == 0 {
        Seq::empty()
    } else {
        let before = apply_rules(norm, order.drop_last());
        if matches_rule(norm, order.last()) {
            add_ts(before, closure_list(order.last()))
        } else {
            before
        }
    }
}

/// The tags that the generic `payloads` tag yields to: a more specific payload class.
pub open spec fn is_specific_payload(t: Tag) -> bool {
    t == Tag::WebShells || t == Tag::Xss || t == Tag::Sqli || t == Tag::Lfi || t == Tag::Ssrf || t == Tag::Ssti
        || t == Tag::Xxe || t == Tag::Cmdi
}

/// Whether some tag of `tags` is a specific payload class.
pub open spec fn has_specific_payload(tags: Seq<Tag>) -> bool {
    exists|i: int| 0 <= i < tags.len() && is_specific_payload(#[trigger] tags[i])
}

/// A character that belongs to a word: an ASCII letter or digit, or any non-ASCII character.
pub open spec fn is_word_char(c: char) -> bool {
    ('a' <= c && c <= 'z') || ('A' <= c && c <= 'Z') || ('0' <= c && c <= '9') || c > '\x7f'
}

/// Whether `w` occurs in `s` as a whole word, not inside a longer one.
pub open spec fn has_word(s: Seq<char>, w: Seq<char>) -> bool {
    exists|i: int|
        #![trigger occurs_at(s, w, i)]
        occurs_at(s, w, i) && (i == 0 || !is_word_char(s[i - 1])) && (i + w.len() == s.len() || !is_word_char(
            s[i + w.len()],
        ))
}

/// Whether a path is an LLM/AI testing list: "llm" occurs in it, or "ai" is one of its words.
pub open spec fn is_ai_path(lower: Seq<char>, norm: Seq<char>) -> bool {
    contains_seq(norm, "llm"@) || has_word(lower, "ai"@)
}

/// The tags of a path that is already lower-case: the rules in order on the path with its
/// separators removed; then `payloads` when the word occurs and no specific payload class
/// matched; then `ai` for LLM/AI lists.
pub open spec fn tag_set(lower: Seq<char>) -> Seq<Tag> {
    let norm = strip_separators(lower);
    let base = apply_rules(norm, rule_order());
    let with_payloads = if contains_seq(norm, "payloads"@) && !has_specific_payload(base) {
        add_t(base, Tag::Payloads)
    } else {
        base
    };
    if is_ai_path(lower, norm) {
        add_t(with_payloads, Tag::Ai)
    } else {
        with_payloads
    }
}

/// The names of some tags.
pub open spec fn tag_names(tags: Seq<Tag>) -> Seq<Seq<char>> {
    tags.map_values(|t: Tag| tag_name(t))
}

/// `tags` with `tag` appended unless it is already there.
pub open spec fn with_tag(tags: Seq<Seq<char>>, tag: Seq<char>) -> Seq<Seq<char>> {
    if tags.contains(tag) {
        tags
    } else {
        tags.push(tag)
    }
}

/// `tags` with each of `new_tags` added in turn.
pub open spec fn with_tags(tags: Seq<Seq<char>>, new_tags: Seq<Seq<char>>) -> Seq<Seq<char>>
    decreases new_tags.len(),
{
    if new_tags.len() == 0 {
        tags
    } else {
        with_tag(with_tags(tags, new_tags.drop_last()), new_tags.last())
    }
}

/// The tags of a path that is already lower-case.
pub open spec fn tags_for_lowercase(lower: Seq<char>) -> Seq<Seq<char>> {
    tag_names(tag_set(lower))
}

/// The tags of a path.
pub open spec fn tags_for_path(path: Seq<char>) -> Seq<Seq<char>> {
    tags_for_lowercase(unicode_lowercase(path))
}

/// Adds `tag` to `tags` unless it is already present.
pub fn add_tag(tags: &mut Vec<String>, tag: &str)
    ensures
        views(final(tags)@) == with_tag(views(old(tags)@), tag@),
{
    let t = tag.to_owned();
    let mut i: usize = 0;
    while i < tags.len()
        invariant
            i <= tags.len(),
            t@ == tag@,
            forall|j: int| 0 <= j < i ==> tags@[j]@ != tag@,
        decreases tags.len() - i,
    {
        if tags[i] == t {
            assert(views(tags@)[i as int] == tag@);
            return;
        }
        i = i + 1;
    }
    let ghost before = views(tags@);
    assert(!before.contains(tag@)) by {
        if before.contains(tag@) {
            let j = choose|j: int| 0 <= j < before.len() && before[j] == tag@;
            assert(tags@[j]@ == tag@);
        }
    }
    tags.push(t);
    assert(views(tags@) =~= before.push(tag@));
}

/// A set of tags that holds everything its tags imply.
pub open spec fn closed_under_implies(s: Seq<Tag>) -> bool {
    forall|x: Tag, u: Tag| #![trigger s.contains(x), implies(x, u)] s.contains(x) && implies(x, u) ==> s.contains(u)
}

proof fn lemma_add_t(s: Seq<Tag>, t: Tag)
    ensures
        forall|x: Tag| #[trigger] add_t(s, t).contains(x) <==> s.contains(x) || x == t,
{
    if !s.contains(t) {
        assert(s.push(t)[s.len() as int] == t);
        assert forall|x: Tag| #[trigger] s.push(t).contains(x) <==> s.contains(x) || x == t by {
            if s.contains(x) {
                let i = choose|i: int| 0 <= i < s.len() && s[i] == x;
                assert(s.push(t)[i] == x);
            }
            if s.push(t).contains(x) {
                let i = choose|i: int| 0 <= i < s.push(t).len() && s.push(t)[i] == x;
                if i < s.len() {
                    assert(s[i] == x);
                }
            }
        }
    }
}

proof fn lemma_add_ts(s: Seq<Tag>, ts: Seq<Tag>)
    ensures
        forall|x: Tag| #[trigger] add_ts(s, ts).contains(x) <==> s.contains(x) || ts.contains(x),
    decreases ts.len(),
{
    if ts.len() > 0 {
        lemma_add_ts(s, ts.drop_last());
        lemma_add_t(add_ts(s, ts.drop_last()), ts.last());
        assert forall|x: Tag| #[trigger] add_ts(s, ts).contains(x) <==> s.contains(x) || ts.contains(x) by {
            if ts.drop_last().contains(x) {
                let i = choose|i: int| 0 <= i < ts.drop_last().len() && ts.drop_last()[i] == x;
                assert(ts[i] == x);
            }
            if ts.contains(x) {
                let i = choose|i: int| 0 <= i < ts.len() && ts[i] == x;
                if i < ts.len() - 1 {
                    assert(ts.drop_last()[i] == x);
                } else {
                    assert(x == ts.last());
                }
            }
        }
    }
}

proof fn lemma_closure_list(t: Tag)
    ensures
        closed_under_implies(closure_list(t)),
        closure_list(t).contains(Tag::Payloads) ==> t == Tag::Payloads,
        closure_list(t).contains(Tag::Ai) ==> t == Tag::Ai,
{
    let l = closure_list(t);
    assert(1 <= l.len() <= 3);
    assert(l[0] == t);
    assert forall|x: Tag| #[trigger] l.contains(x) implies x == l[0] || (l.len() > 1 && x == l[1]) || (l.len() > 2
        && x == l[2]) by {
        let i = choose|i: int| 0 <= i < l.len() && l[i] == x;
        assert(i == 0 || i == 1 || i == 2);
    }
    assert forall|x: Tag, u: Tag| #![trigger l.contains(x), implies(x, u)] l.contains(x) && implies(x, u) implies l.contains(
        u,
    ) by {
        if l.len() > 1 {
            assert(l.contains(l[1]));
        }
        if l.len() > 2 {
            assert(l.contains(l[2]));
        }
    }
}

/// Applying the rules gives a set closed under the implications, never holding `payloads`
/// or `ai` (those come from rules of their own).
proof fn lemma_apply_rules(norm: Seq<char>, order: Seq<Tag>)
    ensures
        closed_under_implies(apply_rules(norm, order)),
        !apply_rules(norm, order).contains(Tag::Payloads),
        !apply_rules(norm, order).contains(Tag::Ai),
    decreases order.len(),
{
    if order.len() > 0 {
        let before = apply_rules(norm, order.drop_last());
        lemma_apply_rules(norm, order.drop_last());
        let t = order.last();
        if matches_rule(norm, t) {
            let l = closure_list(t);
            lemma_closure_list(t);
            lemma_add_ts(before, l);
            assert(t != Tag::Payloads && t != Tag::Ai) by {
                if t == Tag::Payloads || t == Tag::Ai {
                    assert(rule_words(t).len() == 0);
                }
            }
            let after = add_ts(before, l);
            assert forall|x: Tag, u: Tag| #![trigger after.contains(x), implies(x, u)] after.contains(x) && implies(x, u) implies after.contains(
                u,
            ) by {
                if before.contains(x) {
                    assert(before.contains(u));
                } else {
                    assert(l.contains(x));
                    assert(l.contains(u));
                }
            }
        }
    }
}

/// The tags of a path are closed under the taxonomy's implications: a path tagged `snmp` is
/// also tagged `infra` and `discovery`, one tagged `xss` also `fuzzing` and `injection`, and so on.
pub proof fn law_tags_closed_under_implications(lower: Seq<char>)
    ensures
        closed_under_implies(tag_set(lower)),
{
    let norm = strip_separators(lower);
    let base = apply_rules(norm, rule_order());
    lemma_apply_rules(norm, rule_order());
    lemma_add_t(base, Tag::Payloads);
    let wp = if contains_seq(norm, "payloads"@) && !has_specific_payload(base) {
        add_t(base, Tag::Payloads)
    } else {
        base
    };
    assert(closed_under_implies(wp)) by {
        assert forall|x: Tag, u: Tag| #![trigger wp.contains(x), implies(x, u)] wp.contains(x) && implies(x, u) implies wp.contains(
            u,
        ) by {
            if base.contains(x) {
                assert(base.contains(u));
            }
        }
    }
    lemma_add_t(wp, Tag::Ai);
    let r = tag_set(lower);
    assert forall|x: Tag, u: Tag| #![trigger r.contains(x), implies(x, u)] r.contains(x) && implies(x, u) implies r.contains(
        u,
    ) by {
        if wp.contains(x) {
            assert(wp.contains(u));
        }
    }
}

/// `payloads` is only for generic payload lists: a path tagged `payloads` carries none of
/// `webshells`, `xss`, `sqli`, `lfi`, `ssrf`, `ssti`, `xxe`, `cmdi`.
pub proof fn law_payloads_only_generic(lower: Seq<char>)
    ensures
        tag_set(lower).contains(Tag::Payloads) ==> !has_specific_payload(tag_set(lower)),
{
    let norm = strip_separators(lower);
    let base = apply_rules(norm, rule_order());
    lemma_apply_rules(norm, rule_order());
    lemma_add_t(base, Tag::Payloads);
    let wp = if contains_seq(norm, "payloads"@) && !has_specific_payload(base) {
        add_t(base, Tag::Payloads)
    } else {
        base
    };
    lemma_add_t(wp, Tag::Ai);
    let r = tag_set(lower);
    if r.contains(Tag::Payloads) {
        assert(wp.contains(Tag::Payloads));
        assert(contains_seq(norm, "payloads"@) && !has_specific_payload(base));
        assert forall|i: int| 0 <= i < r.len() implies !is_specific_payload(#[trigger] r[i]) by {
            assert(r.contains(r[i]));
            if wp.contains(r[i]) {
                if base.contains(r[i]) {
                    let j = choose|j: int| 0 <= j < base.len() && base[j] == r[i];
                    assert(!is_specific_payload(base[j]));
                }
            }
        }
    }
}

/// `ai` is exactly for LLM/AI lists: "llm" occurs in the path (separators removed) or "ai" is
/// one of its words.
pub proof fn law_ai_only_for_ai_lists(lower: Seq<char>)
    ensures
        tag_set(lower).contains(Tag::Ai) <==> is_ai_path(lower, strip_separators(lower)),
{
    let norm = strip_separators(lower);
    let base = apply_rules(norm, rule_order());
    lemma_apply_rules(norm, rule_order());
    lemma_add_t(base, Tag::Payloads);
    let wp = if contains_seq(norm, "payloads"@) && !has_specific_payload(base) {
        add_t(base, Tag::Payloads)
    } else {
        base
    };
    lemma_add_t(wp, Tag::Ai);
}

/// A rule that matches puts its tag into the tags the rules give.
proof fn lemma_apply_rules_has(norm: Seq<char>, order: Seq<Tag>, i: int)
    requires
        0 <= i < order.len(),
        matches_rule(norm, order[i]),
    ensures
        apply_rules(norm, order).contains(order[i]),
    decreases order.len(),
{
    let before = apply_rules(norm, order.drop_last());
    let l = closure_list(order.last());
    lemma_add_ts(before, l);
    if i == order.len() - 1 {
        assert(l[0] == order.last());
        assert(l.contains(order.last()));
    } else {
        lemma_apply_rules_has(norm, order.drop_last(), i);
        assert(order.drop_last()[i] == order[i]);
    }
}

/// When the `k`-th rule word of the tag tried `i`-th occurs in the normalised path, the path
/// carries that tag.
proof fn lemma_rule_word_tags(lower: Seq<char>, t: Tag, k: int, i: int)
    requires
        0 <= k < rule_words(t).len(),
        0 <= i < rule_order().len(),
        rule_order()[i] == t,
    ensures
        contains_seq(strip_separators(lower), rule_words(t)[k]) ==> tag_set(lower).contains(t)
            && tags_for_lowercase(lower).contains(tag_name(t)),
{
    let norm = strip_separators(lower);
    if contains_seq(norm, rule_words(t)[k]) {
        assert(matches_rule(norm, t));
        lemma_apply_rules_has(norm, rule_order(), i);
        let base = apply_rules(norm, rule_order());
        lemma_add_t(base, Tag::Payloads);
        let wp = if contains_seq(norm, "payloads"@) && !has_specific_payload(base) {
            add_t(base, Tag::Payloads)
        } else {
            base
        };
        lemma_add_t(wp, Tag::Ai);
        let ts = tag_set(lower);
        assert(ts.contains(t));
        let j = choose|j: int| 0 <= j < ts.len() && ts[j] == t;
        assert(tag_names(ts)[j] == tag_name(t));
    }
}

/// Every rule of the taxonomy is tried: a path (lower-cased, separators removed) in which a
/// tag's word occurs carries that tag — "usernames" gives `usernames`, "credentials" gives
/// `creds`, "webcontent" (from "Web-Content") gives `webcontent`, and so on for each rule.
pub proof fn law_rule_words_select_tags(lower: Seq<char>)
    ensures
        ({
            let norm = strip_separators(lower);
            let names = tags_for_lowercase(lower);
            &&& contains_seq(norm, "discovery"@) ==> names.contains("discovery"@)
            &&& contains_seq(norm, "webcontent"@) ==> names.contains("webcontent"@)
            &&& contains_seq(norm, "webshells"@) ==> names.contains("webshells"@)
            &&& contains_seq(norm, "dns"@) ==> names.contains("dns"@)
            &&& contains_seq(norm, "infra"@) ==> names.contains("infra"@)
            &&& contains_seq(norm, "snmp"@) ==> names.contains("snmp"@)
            &&& contains_seq(norm, "mainframe"@) ==> names.contains("mainframe"@)
            &&& contains_seq(norm, "iot"@) ==> names.contains("iot"@)
            &&& contains_seq(norm, "ports"@) ==> names.contains("ports"@)
            &&& contains_seq(norm, "fuzzing"@) ==> names.contains("fuzzing"@)
            &&& contains_seq(norm, "xss"@) ==> names.contains("xss"@)
            &&& contains_seq(norm, "sqli"@) ==> names.contains("sqli"@)
            &&& contains_seq(norm, "lfi"@) ==> names.contains("lfi"@)
            &&& contains_seq(norm, "ssrf"@) ==> names.contains("ssrf"@)
            &&& contains_seq(norm, "ssti"@) ==> names.contains("ssti"@)
            &&& contains_seq(norm, "xxe"@) ==> names.contains("xxe"@)
            &&& contains_seq(norm, "cmdi"@) ==> names.contains("cmdi"@)
            &&& contains_seq(norm, "passwords"@) ==> names.contains("passwords"@)
            &&& contains_seq(norm, "creds"@) ==> names.contains("creds"@)
            &&& contains_seq(norm, "credentials"@) ==> names.contains("creds"@)
            &&& contains_seq(norm, "leaked"@) ==> names.contains("leaked"@)
            &&& contains_seq(norm, "permutations"@) ==> names.contains("permutations"@)
            &&& contains_seq(norm, "usernames"@) ==> names.contains("usernames"@)
            &&& contains_seq(norm, "patterns"@) ==> names.contains("patterns"@)
        }),
{
    lemma_rule_word_tags(lower, Tag::Discovery, 0, 0);
    lemma_rule_word_tags(lower, Tag::WebContent, 0, 1);
    lemma_rule_word_tags(lower, Tag::WebShells, 0, 2);
    lemma_rule_word_tags(lower, Tag::Dns, 0, 3);
    lemma_rule_word_tags(lower, Tag::Infra, 0, 4);
    lemma_rule_word_tags(lower, Tag::Snmp, 0, 5);
    lemma_rule_word_tags(lower, Tag::Mainframe, 0, 6);
    lemma_rule_word_tags(lower, Tag::Iot, 0, 7);
    lemma_rule_word_tags(lower, Tag::Ports, 0, 8);
    lemma_rule_word_tags(lower, Tag::Fuzzing, 0, 9);
    lemma_rule_word_tags(lower, Tag::Xss, 0, 10);
    lemma_rule_word_tags(lower, Tag::Sqli, 0, 11);
    lemma_rule_word_tags(lower, Tag::Lfi, 0, 12);
    lemma_rule_word_tags(lower, Tag::Ssrf, 0, 13);
    lemma_rule_word_tags(lower, Tag::Ssti, 0, 14);
    lemma_rule_word_tags(lower, Tag::Xxe, 0, 15);
    lemma_rule_word_tags(lower, Tag::Cmdi, 0, 16);
    lemma_rule_word_tags(lower, Tag::Passwords, 0, 17);
    lemma_rule_word_tags(lower, Tag::Creds, 0, 18);
    lemma_rule_word_tags(lower, Tag::Creds, 1, 18);
    lemma_rule_word_tags(lower, Tag::Leaked, 0, 19);
    lemma_rule_word_tags(lower, Tag::Permutations, 0, 20);
    lemma_rule_word_tags(lower, Tag::Usernames, 0, 21);
    lemma_rule_word_tags(lower, Tag::Patterns, 0, 22);
}

/// The name of a tag.
pub fn tag_name_str(t: Tag) -> (r: &'static str)
    ensures
        r@ == tag_name(t),
{
    match t {
        Tag::Discovery => "discovery",
        Tag::WebContent => "webcontent",
        Tag::Web => "web",
        Tag::WebShells => "webshells",
        Tag::Dns => "dns",
        Tag::Infra => "infra",
        Tag::Snmp => "snmp",
        Tag::Mainframe => "mainframe",
        Tag::Iot => "iot",
        Tag::Ports => "ports",
        Tag::Fuzzing => "fuzzing",
        Tag::Xss => "xss",
        Tag::Injection => "injection",
        Tag::Sqli => "sqli",
        Tag::Lfi => "lfi",
        Tag::Ssrf => "ssrf",
        Tag::Ssti => "ssti",
        Tag::Xxe => "xxe",
        Tag::Cmdi => "cmdi",
        Tag::Passwords => "passwords",
        Tag::Creds => "creds",
        Tag::Leaked => "leaked",
        Tag::Permutations => "permutations",
        Tag::Usernames => "usernames",
        Tag::Patterns => "patterns",
        Tag::Payloads => "payloads",
        Tag::Ai => "ai",
    }
}

/// A tag followed by everything it implies.
fn closure_exec(t: Tag) -> (r: Vec<Tag>)
    ensures
        r@ == closure_list(t),
{
    let r = match t {
        Tag::WebContent => vec![Tag::WebContent, Tag::Web, Tag::Discovery],
        Tag::WebShells => vec![Tag::WebShells, Tag::Web],
        Tag::Dns => vec![Tag::Dns, Tag::Discovery],
        Tag::Infra => vec![Tag::Infra, Tag::Discovery],
        Tag::Snmp => vec![Tag::Snmp, Tag::Infra, Tag::Discovery],
        Tag::Mainframe => vec![Tag::Mainframe, Tag::Infra, Tag::Discovery],
        Tag::Iot => vec![Tag::Iot, Tag::Infra, Tag::Discovery],
        Tag::Ports => vec![Tag::Ports, Tag::Infra, Tag::Discovery],
        Tag::Xss => vec![Tag::Xss, Tag::Fuzzing, Tag::Injection],
        Tag::Sqli => vec![Tag::Sqli, Tag::Fuzzing, Tag::Injection],
        Tag::Lfi => vec![Tag::Lfi, Tag::Fuzzing, Tag::Injection],
        Tag::Ssrf => vec![Tag::Ssrf, Tag::Fuzzing, Tag::Injection],
        Tag::Ssti => vec![Tag::Ssti, Tag::Fuzzing, Tag::Injection],
        Tag::Xxe => vec![Tag::Xxe, Tag::Fuzzing, Tag::Injection],
        Tag::Cmdi => vec![Tag::Cmdi, Tag::Fuzzing, Tag::Injection],
        Tag::Creds => vec![Tag::Creds, Tag::Passwords],
        Tag::Leaked => vec![Tag::Leaked, Tag::Passwords],
        Tag::Permutations => vec![Tag::Permutations, Tag::Passwords],
        _ => vec![t],
    };
    assert(r@ =~= closure_list(t));
    r
}

/// The rule words of a tag.
fn rule_words_exec(t: Tag) -> (r: Vec<&'static str>)
    ensures
        r@.map_values(|w: &str| w@) == rule_words(t),
{
    let r = match t {
        Tag::Creds => vec!["creds", "credentials"],
        Tag::Web | Tag::Injection | Tag::Payloads | Tag::Ai => Vec::new(),
        _ => vec![tag_name_str(t)],
    };
    assert(r@.map_values(|w: &str| w@) =~= rule_words(t));
    r
}

/// The order in which the rules are tried.
fn rule_order_exec() -> (r: Vec<Tag>)
    ensures
        r@ == rule_order(),
{
    let r = vec![
        Tag::Discovery, Tag::WebContent, Tag::WebShells, Tag::Dns, Tag::Infra, Tag::Snmp, Tag::Mainframe,
        Tag::Iot, Tag::Ports, Tag::Fuzzing, Tag::Xss, Tag::Sqli, Tag::Lfi, Tag::Ssrf, Tag::Ssti, Tag::Xxe,
        Tag::Cmdi, Tag::Passwords, Tag::Creds, Tag::Leaked, Tag::Permutations, Tag::Usernames, Tag::Patterns,
    ];
    assert(r@ =~= rule_order());
    r
}

/// Adds `t` unless it is already there.
fn add_t_exec(tags: &mut Vec<Tag>, t: Tag)
    ensures
        final(tags)@ == add_t(old(tags)@, t),
{
    let mut i: usize = 0;
    while i < tags.len()
        invariant
            i <= tags@.len(),
            forall|j: int| 0 <= j < i ==> tags@[j] != t,
        decreases tags@.len() - i,
    {
        if tags[i] == t {
            assert(tags@.contains(t));
            return;
        }
        i = i + 1;
    }
    tags.push(t);
}

/// Adds each of `ts` in turn.
fn add_ts_exec(tags: &mut Vec<Tag>, ts: &Vec<Tag>)
    ensures
        final(tags)@ == add_ts(old(tags)@, ts@),
{
    let ghost start = tags@;
    let mut j: usize = 0;
    while j < ts.len()
        invariant
            j <= ts@.len(),
            tags@ == add_ts(start, ts@.take(j as int)),
        decreases ts@.len() - j,
    {
        assert(ts@.take(j + 1).drop_last() =~= ts@.take(j as int));
        add_t_exec(tags, ts[j]);
        j = j + 1;
    }
    assert(ts@.take(j as int) =~= ts@);
}

/// Whether one of a tag's rule words occurs in the normalised path.
fn matches_rule_exec(norm: &Vec<char>, t: Tag) -> (r: bool)
    ensures
        r == matches_rule(norm@, t),
{
    let words = rule_words_exec(t);
    let mut k: usize = 0;
    while k < words.len()
        invariant
            k <= words@.len(),
            words@.map_values(|w: &str| w@) == rule_words(t),
            forall|j: int| 0 <= j < k ==> !contains_seq(norm@, #[trigger] rule_words(t)[j]),
        decreases words@.len() - k,
    {
        let w = chars_of(words[k]);
        assert(rule_words(t)[k as int] == words@[k as int]@);
        if contains_chars(norm, &w) {
            return true;
        }
        k = k + 1;
    }
    false
}

/// Whether some tag is a specific payload class.
fn has_specific_payload_exec(tags: &Vec<Tag>) -> (r: bool)
    ensures
        r == has_specific_payload(tags@),
{
    let mut i: usize = 0;
    while i < tags.len()
        invariant
            i <= tags@.len(),
            forall|j: int| 0 <= j < i ==> !is_specific_payload(#[trigger] tags@[j]),
        decreases tags@.len() - i,
    {
        let t = tags[i];
        if t == Tag::WebShells || t == Tag::Xss || t == Tag::Sqli || t == Tag::Lfi || t == Tag::Ssrf || t
            == Tag::Ssti || t == Tag::Xxe || t == Tag::Cmdi {
            assert(is_specific_payload(tags@[i as int]));
            return true;
        }
        i = i + 1;
    }
    false
}

/// Whether a character belongs to a word.
fn is_word_char_exec(c: char) -> (r: bool)
    ensures
        r == is_word_char(c),
{
    ('a' <= c && c <= 'z') || ('A' <= c && c <= 'Z') || ('0' <= c && c <= '9') || c > '\x7f'
}

/// Whether `w` occurs in `s` as a whole word.
fn has_word_exec(s: &Vec<char>, w: &Vec<char>) -> (r: bool)
    ensures
        r == has_word(s@, w@),
{
    if w.len() > s.len() {
        return false;
    }
    let last = s.len() - w.len();
    let mut i: usize = 0;
    while i <= last
        invariant_except_break
            i <= last,
        invariant
            last == s@.len() - w@.len(),
            w@.len() <= s@.len(),
            forall|j: int|
                #![trigger occurs_at(s@, w@, j)]
                0 <= j < i ==> !(occurs_at(s@, w@, j) && (j == 0 || !is_word_char(s@[j - 1])) && (j + w@.len()
                    == s@.len() || !is_word_char(s@[j + w@.len()]))),
        ensures
            forall|j: int|
                #![trigger occurs_at(s@, w@, j)]
                0 <= j <= last ==> !(occurs_at(s@, w@, j) && (j == 0 || !is_word_char(s@[j - 1])) && (j + w@.len()
                    == s@.len() || !is_word_char(s@[j + w@.len()]))),
        decreases last - i,
    {
        let n = s.len();
        assert(i + w@.len() <= n);
        if matches_at(s, w, i) {
            let end = i + w.len();
            let before_ok = i == 0 || !is_word_char_exec(s[i - 1]);
            let after_ok = end == s.len() || !is_word_char_exec(s[end]);
            if before_ok && after_ok {
                return true;
            }
        }
        if i == last {
            break;
        }
        i = i + 1;
    }
    assert forall|j: int| #![trigger occurs_at(s@, w@, j)] occurs_at(s@, w@, j) implies !((j == 0
        || !is_word_char(s@[j - 1])) && (j + w@.len() == s@.len() || !is_word_char(s@[j + w@.len()]))) by {
        assert(0 <= j <= last);
    }
    false
}

/// Removes the word separators from a sequence of characters.
fn strip_separators_exec(s: &Vec<char>) -> (r: Vec<char>)
    ensures
        r@ == strip_separators(s@),
{
    let mut out: Vec<char> = Vec::new();
    let mut i: usize = 0;
    while i < s.len()
        invariant
            i <= s.len(),
            out@ == strip_separators(s@.take(i as int)),
        decreases s.len() - i,
    {
        let c = s[i];
        assert(s@.take(i + 1).drop_last() == s@.take(i as int));
        if c != '-' && c != '_' {
            out.push(c);
        }
        i = i + 1;
    }
    assert(s@.take(s.len() as int) == s@);
    out
}

/// The tags of a path that is already lower-case (see `tag_set`).
pub fn tag_set_of(lower: &str) -> (r: Vec<Tag>)
    ensures
        r@ == tag_set(lower@),
{
    let chars = chars_of(lower);
    let norm = strip_separators_exec(&chars);
    let order = rule_order_exec();
    let mut tags: Vec<Tag> = Vec::new();
    let mut k: usize = 0;
    while k < order.len()
        invariant
            k <= order@.len(),
            order@ == rule_order(),
            norm@ == strip_separators(lower@),
            tags@ == apply_rules(norm@, rule_order().take(k as int)),
        decreases order@.len() - k,
    {
        assert(rule_order().take(k + 1).drop_last() =~= rule_order().take(k as int));
        assert(rule_order().take(k + 1).last() == order@[k as int]);
        if matches_rule_exec(&norm, order[k]) {
            let implied = closure_exec(order[k]);
            add_ts_exec(&mut tags, &implied);
        }
        k = k + 1;
    }
    assert(rule_order().take(order@.len() as int) =~= rule_order());
    let payloads = chars_of("payloads");
    if contains_chars(&norm, &payloads) && !has_specific_payload_exec(&tags) {
        add_t_exec(&mut tags, Tag::Payloads);
    }
    let llm = chars_of("llm");
    let ai = chars_of("ai");
    if contains_chars(&norm, &llm) || has_word_exec(&chars, &ai) {
        add_t_exec(&mut tags, Tag::Ai);
    }
    tags
}

/// The tags of a path that is already in lower case, by name.
pub fn get_tags_for_lowercase(lower: &str) -> (r: Vec<String>)
    ensures
        views(r@) == tags_for_lowercase(lower@),
{
    let tags = tag_set_of(lower);
    let mut out: Vec<String> = Vec::new();
    let mut i: usize = 0;
    while i < tags.len()
        invariant
            i <= tags@.len(),
            views(out@) == tag_names(tags@.take(i as int)),
        decreases tags@.len() - i,
    {
        out.push(tag_name_str(tags[i]).to_owned());
        i = i + 1;
        assert(tag_names(tags@.take(i as int)) =~= tag_names(tags@.take(i - 1)).push(tag_name(tags@[i - 1])));
        assert(views(out@) =~= views(out@.drop_last()).push(out@.last()@));
    }
    assert(tags@.take(i as int) =~= tags@);
    out
}

/// The tags of a path: it is lower-cased, its separators are removed for matching words,
/// and the taxonomy is applied (see `tag_set`). An all-ASCII path is lower-cased the ASCII way.
pub fn get_tags_for_path(path: &str) -> (r: Vec<String>)
    ensures
        views(r@) == tags_for_path(path@),
        is_ascii_chars(path@) ==> views(r@) == tags_for_lowercase(ascii_lowercase(path@)),
{
    let lower = to_lowercase(path);
    get_tags_for_lowercase(lower.as_str())
}

} // verus!
