use vstd::prelude::*;
use vstd::string::{StringExecFns, StringSliceAdditionalSpecFns};
use vstd::utf8::{encode_utf8, is_char_boundary};
use regex::bytes::RegexSet;
use regex::Regex;
use crate::matcher::{compiled_set, regex_error, PatternError, regex_set_new, set_empty, texts};
use crate::style::MarkStyle;
use crate::styled::{
    any_hit, bytes_of, chars_of, group_spans, kept_chars, mark_spans, match_num, paint_spans, plain,
    plain_chars, regex_group_spans, shown_chars, views, StyledChar, StyledCharView,
};

verus! {

/// Names a pattern of a `PatternSet`; also counts the set's generations.
pub type PatternId = usize;

/// `regex::Regex`: one compiled pattern, matched against text. Verus sees
/// nothing inside a value of it.
#[verifier::external_type_specification]
#[verifier::external_body]
pub struct ExRegex(Regex);

/// `Regex::clone`: a second handle to the same compiled pattern.
#[verifier::external_body]
pub(crate) fn regex_clone(re: &Regex) -> (copy: Regex)
    ensures
        copy == *re,
{
    re.clone()
}

/// What `Regex::new` makes of the source text of a pattern: the compiled
/// pattern, or `None` where the text is refused.
pub uninterp spec fn compiled(source: Seq<char>) -> Option<Regex>;

/// `Regex::new`: compiles the source text of a pattern.
#[verifier::external_body]
pub(crate) fn regex_new(source: &str) -> (made: Result<Regex, regex::Error>)
    ensures
        match made {
            Ok(re) => compiled(source@) == Some(re),
            Err(_) => compiled(source@).is_none(),
        },
{
    Regex::new(source)
}

/// Whether a character has a meaning of its own in a regular expression.
pub open spec fn is_meta(c: char) -> bool {
    c == '\\' || c == '.' || c == '+' || c == '*' || c == '?' || c == '(' || c == ')' || c == '|'
        || c == '[' || c == ']' || c == '{' || c == '}' || c == '^' || c == '$' || c == '#' || c
        == '&' || c == '-' || c == '~'
}

/// The text with a backslash before each character that has a meaning of its
/// own in a regular expression.
pub open spec fn escaped(text: Seq<char>) -> Seq<char>
    decreases text.len(),
{
    if text.len() == 0 {
        Seq::empty()
    } else if is_meta(text.last()) {
        escaped(text.drop_last()).push('\\').push(text.last())
    } else {
        escaped(text.drop_last()).push(text.last())
    }
}

/// `regex::escape`: puts a backslash before each character of the text that
/// has a meaning of its own in a regular expression.
#[verifier::external_body]
pub(crate) fn regex_escape(text: &str) -> (quoted: String)
    ensures
        quoted@ == escaped(text@),
{
    regex::escape(text)
}

/// How the text of a pattern is to be found in a line.
#[derive(Debug, PartialEq, Eq, Copy, Clone, Structural)]
pub enum MatchType {
    /// As a word between blanks.
    BigWord,
    /// As a word between blanks or punctuation.
    SmallWord,
    /// Anywhere.
    Text,
    /// The text is a regular expression.
    Regex,
}

/// What stands before the text of a pattern that is found as a word between
/// blanks.
pub open spec fn big_word_head() -> Seq<char> {
    "(?:[\t ]|^|\n)("@
}

/// What stands after it.
pub open spec fn big_word_tail() -> Seq<char> {
    ")(?:$|\n|[\t ])"@
}

/// What stands before the text of a pattern that is found as a word between
/// blanks or punctuation.
pub open spec fn small_word_head() -> Seq<char> {
    "(?:[\t :.,\"';()\\[\\]{}<>=+\\-*/&|^~!@#$%?]|^|\n)("@
}

/// What stands after it.
pub open spec fn small_word_tail() -> Seq<char> {
    ")(?:$|\n|[\t :.,\"';()\\[\\]{}<>=+\\-*/&|^~!@#$%?])"@
}

/// The regular expression that finds the text `pattern` in the way `kind`:
/// the text itself as the first group, with what has to stand around it. The
/// text is taken literally, but for kind `Regex`.
pub open spec fn source_of(kind: MatchType, pattern: Seq<char>) -> Seq<char> {
    match kind {
        MatchType::BigWord => big_word_head() + escaped(pattern) + big_word_tail(),
        MatchType::SmallWord => small_word_head() + escaped(pattern) + small_word_tail(),
        MatchType::Text => "("@ + escaped(pattern) + ")"@,
        MatchType::Regex => "("@ + pattern + ")"@,
    }
}

impl MatchType {
    /// The characters that end a word of this kind.
    pub fn delimiter(&self) -> (chars: &'static str)
        ensures
            chars@ == match self {
                MatchType::BigWord => " \t"@,
                MatchType::SmallWord => " \t:.,\"';()[]{}<>=+-*/&|^~!@#$%?"@,
                MatchType::Text => ""@,
                MatchType::Regex => ""@,
            },
    {
        match self {
            MatchType::BigWord => " \t",
            MatchType::SmallWord => " \t:.,\"';()[]{}<>=+-*/&|^~!@#$%?",
            MatchType::Text => "",
            MatchType::Regex => "",
        }
    }

    /// The regular expression that finds `pattern` in this way.
    pub fn build_re(&self, pattern: &str) -> (source: String)
        ensures
            source@ == source_of(*self, pattern@),
    {
        match self {
            MatchType::BigWord => {
                let mut source = String::from_str("(?:[\t ]|^|\n)(");
                let quoted = regex_escape(pattern);
                source.append(quoted.as_str());
                source.append(")(?:$|\n|[\t ])");
                source
            },
            MatchType::SmallWord => {
                let mut source = String::from_str(
                    "(?:[\t :.,\"';()\\[\\]{}<>=+\\-*/&|^~!@#$%?]|^|\n)(",
                );
                let quoted = regex_escape(pattern);
                source.append(quoted.as_str());
                source.append(")(?:$|\n|[\t :.,\"';()\\[\\]{}<>=+\\-*/&|^~!@#$%?])");
                source
            },
            MatchType::Text => {
                let mut source = String::from_str("(");
                let quoted = regex_escape(pattern);
                source.append(quoted.as_str());
                source.append(")");
                source
            },
            MatchType::Regex => {
                let mut source = String::from_str("(");
                source.append(pattern);
                source.append(")");
                source
            },
        }
    }
}

/// What a pattern does to the lines that it matches.
#[derive(Debug, PartialEq, Eq, Copy, Clone, Structural)]
pub enum PatternMode {
    Tagging,
    Hiding,
    Marking,
    Search,
}

/// One pattern of a session.
#[derive(Debug)]
pub struct Pattern {
    /// The text to find.
    pub pattern: String,
    /// How matches are drawn.
    pub style: MarkStyle,
    /// What the pattern does to the lines that it matches.
    pub mode: PatternMode,
    /// How the text is to be found.
    pub match_type: MatchType,
    re: Regex,
}

/// A pattern as plain values.
pub struct PatternView {
    pub pattern: Seq<char>,
    pub style: MarkStyle,
    pub mode: PatternMode,
    pub match_type: MatchType,
}

impl Clone for Pattern {
    fn clone(&self) -> (copy: Pattern)
        ensures
            copy@ == self@,
            self.wf() ==> copy.wf(),
    {
        Pattern {
            pattern: self.pattern.clone(),
            style: self.style,
            mode: self.mode,
            match_type: self.match_type,
            re: regex_clone(&self.re),
        }
    }
}

impl Pattern {
    pub closed spec fn view(&self) -> PatternView {
        PatternView {
            pattern: self.pattern@,
            style: self.style,
            mode: self.mode,
            match_type: self.match_type,
        }
    }

    /// The compiled pattern is the one of the text and the kind.
    pub closed spec fn wf(&self) -> bool {
        compiled(source_of(self.match_type, self.pattern@)) == Some(self.re)
    }

    /// The compiled pattern, for finding its matches in a line.
    pub fn regex(&self) -> (re: &Regex)
        ensures
            self.wf() ==> compiled(source_of(self@.match_type, self@.pattern)) == Some(*re),
    {
        &self.re
    }
}

/// The three compiled sets that decide, line by line, what is tagged, what is
/// a search result and what is hidden.
pub struct LineSets {
    pub tagged: RegexSet,
    pub search: RegexSet,
    pub hidden: RegexSet,
}

/// The source texts of the patterns of mode `mode`, in the order of the
/// patterns.
pub open spec fn sources(patterns: Seq<PatternView>, mode: PatternMode) -> Seq<Seq<char>>
    decreases patterns.len(),
{
    if patterns.len() == 0 {
        Seq::empty()
    } else {
        let before = sources(patterns.drop_last(), mode);
        if patterns.last().mode == mode {
            before.push(source_of(patterns.last().match_type, patterns.last().pattern))
        } else {
            before
        }
    }
}

/// All patterns compile, one by one and mode by mode as sets.
pub open spec fn all_compile(patterns: Seq<PatternView>) -> bool {
    &&& forall|i: int|
        0 <= i < patterns.len() ==> compiled(
            source_of((#[trigger] patterns[i]).match_type, patterns[i].pattern),
        ).is_some()
    &&& compiled_set(sources(patterns, PatternMode::Tagging)).is_some()
    &&& compiled_set(sources(patterns, PatternMode::Search)).is_some()
    &&& compiled_set(sources(patterns, PatternMode::Hiding)).is_some()
}

/// The list names the pattern `k`.
pub open spec fn names(order: Seq<usize>, k: int) -> bool {
    exists|a: int| 0 <= a < order.len() && #[trigger] order[a] == k
}

/// How many bytes of a line are searched for a pattern with a text of
/// `text_len` bytes where `bytes` bytes of the line are drawn.
pub open spec fn search_len(line: Seq<u8>, bytes: usize, text_len: usize) -> int {
    if bytes + text_len < line.len() as usize {
        bytes + text_len
    } else {
        (line.len() as usize) as int
    }
}

/// The greatest number of bytes up to `want` at which a character of the
/// line ends.
pub open spec fn whole_chars(line: Seq<u8>, want: int) -> int
    decreases want,
{
    if want <= 0 {
        0
    } else if is_char_boundary(line, want) {
        want
    } else {
        whole_chars(line, want - 1)
    }
}

/// The patterns of a session by number.
#[derive(Debug, Clone)]
pub struct PatternTable {
    ids: Vec<PatternId>,
    patterns: Vec<Pattern>,
}

impl PatternTable {
    /// The numbers of the patterns, in increasing order.
    pub closed spec fn ids(&self) -> Seq<PatternId> {
        self.ids@
    }

    /// The patterns, in the order of their numbers.
    pub closed spec fn patterns(&self) -> Seq<PatternView> {
        Seq::new(self.patterns@.len(), |i: int| self.patterns@[i]@)
    }

    /// The invariant: there is a number for each pattern, the numbers
    /// increase, and every compiled pattern is the one of its source.
    pub closed spec fn wf(&self) -> bool {
        &&& self.ids@.len() == self.patterns@.len()
        &&& forall|i: int, j: int| 0 <= i < j < self.ids@.len() ==> self.ids@[i] < self.ids@[j]
        &&& forall|i: int| 0 <= i < self.patterns@.len() ==> (#[trigger] self.patterns@[i]).wf()
    }

    /// Where the pattern with the number `id` stands.
    fn position(&self, id: PatternId) -> (at: Option<usize>)
        requires
            self.wf(),
        ensures
            match at {
                Some(k) => k < self.ids().len() && self.ids()[k as int] == id,
                None => !self.ids().contains(id),
            },
    {
        let mut k: usize = 0;
        while k < self.ids.len()
            invariant
                k <= self.ids@.len(),
                forall|i: int| 0 <= i < k ==> self.ids@[i] != id,
            decreases self.ids@.len() - k,
        {
            if self.ids[k] == id {
                return Some(k);
            }
            k += 1;
        }
        None
    }

    /// The pattern with the number `id`.
    fn lookup(&self, id: PatternId) -> (pattern: &Pattern)
        requires
            self.wf(),
            self.ids().contains(id),
        ensures
            exists|k: int|
                0 <= k < self.ids().len() && #[trigger] self.ids()[k] == id && pattern@
                    == self.patterns()[k],
    {
        match self.position(id) {
            Some(k) => {
                assert(self.ids()[k as int] == id);
                &self.patterns[k]
            },
            None => {
                proof {
                    assert(false);
                }
                &self.patterns[0]
            },
        }
    }

    /// The mode of the pattern with the number `id`.
    fn mode_of(&self, id: PatternId) -> (mode: PatternMode)
        requires
            self.wf(),
            self.ids().contains(id),
        ensures
            exists|k: int|
                0 <= k < self.ids().len() && #[trigger] self.ids()[k] == id && mode
                    == self.patterns()[k].mode,
    {
        self.lookup(id).mode
    }

    /// The source texts of the patterns of mode `mode`.
    fn collect(&self, mode: PatternMode) -> (list: Vec<String>)
        requires
            self.wf(),
        ensures
            texts(list@) == sources(self.patterns(), mode),
    {
        let mut list: Vec<String> = Vec::new();
        let mut k: usize = 0;
        assert(self.patterns().subrange(0, 0) =~= Seq::<PatternView>::empty());
        assert(texts(list@) =~= Seq::<Seq<char>>::empty());
        while k < self.patterns.len()
            invariant
                k <= self.patterns@.len(),
                texts(list@) == sources(self.patterns().subrange(0, k as int), mode),
            decreases self.patterns@.len() - k,
        {
            let ghost before = list@;
            let ghost head = self.patterns().subrange(0, k as int + 1);
            assert(head.drop_last() =~= self.patterns().subrange(0, k as int));
            assert(head.last() == self.patterns@[k as int]@);
            if self.patterns[k].mode == mode {
                let source = self.patterns[k].match_type.build_re(self.patterns[k].pattern.as_str());
                list.push(source);
                assert(texts(list@) =~= texts(before).push(source@));
            }
            k += 1;
        }
        assert(self.patterns().subrange(0, k as int) =~= self.patterns());
        list
    }

    /// The number of patterns.
    pub open spec fn count(&self) -> nat {
        self.patterns().len()
    }

    /// The number of bytes of the text of pattern `k`.
    pub open spec fn text_len(&self, k: int) -> usize {
        encode_utf8(self.patterns()[k].pattern).len() as usize
    }

    /// Pattern `a` is marked before pattern `b`: its text is longer, or as
    /// long and it came later.
    pub open spec fn goes_before(&self, a: int, b: int) -> bool {
        self.text_len(a) > self.text_len(b) || (self.text_len(a) == self.text_len(b) && a > b)
    }

    /// `order` names the first `n` patterns in the order in which they are
    /// marked: each once, the longer text first.
    pub open spec fn is_order(&self, order: Seq<usize>, n: nat) -> bool {
        &&& order.len() == n
        &&& forall|j: int| 0 <= j < n ==> (#[trigger] order[j]) < n
        &&& forall|k: int| 0 <= k < n ==> #[trigger] names(order, k)
        &&& forall|a: int, b: int|
            0 <= a < b < n ==> self.goes_before(
                (#[trigger] order[a]) as int,
                (#[trigger] order[b]) as int,
            )
    }

    /// The patterns in the order in which they are marked.
    fn length_order(&self) -> (order: Vec<usize>)
        requires
            self.wf(),
        ensures
            self.is_order(order@, self.count()),
    {
        let mut order: Vec<usize> = Vec::new();
        let mut i: usize = 0;
        while i < self.patterns.len()
            invariant
                i <= self.patterns@.len(),
                self.is_order(order@, i as nat),
            decreases self.patterns@.len() - i,
        {
            let len = self.patterns[i].pattern.as_str().len();
            let mut at: usize = 0;
            while at < order.len() && self.patterns[order[at]].pattern.as_str().len() > len
                invariant
                    i < self.patterns@.len(),
                    self.is_order(order@, i as nat),
                    at <= order@.len(),
                    len == self.text_len(i as int),
                    forall|j: int|
                        0 <= j < at ==> self.text_len((#[trigger] order@[j]) as int) > len,
                decreases order@.len() - at,
            {
                at += 1;
            }
            let ghost before = order@;
            order.insert(at, i);
            proof {
                assert forall|a: int, b: int| 0 <= a < b < i + 1 implies self.goes_before(
                    (#[trigger] order@[a]) as int,
                    (#[trigger] order@[b]) as int,
                ) by {
                    let x = if a < at {
                        a
                    } else {
                        a - 1
                    };
                    let y = if b < at {
                        b
                    } else {
                        b - 1
                    };
                    if a == at {
                        // the new pattern stands before one that is not longer
                        assert(order@[b] == before[y]);
                        if at < before.len() && y > at {
                            assert(self.goes_before(before[at as int] as int, before[y] as int));
                        }
                    } else if b == at {
                        assert(order@[a] == before[x]);
                    } else {
                        assert(order@[a] == before[x] && order@[b] == before[y]);
                        assert(self.goes_before(before[x] as int, before[y] as int));
                    }
                }
                assert forall|j: int| 0 <= j < i + 1 implies (#[trigger] order@[j]) < i + 1 by {
                    if j < at {
                        assert(order@[j] == before[j]);
                    } else if j > at {
                        assert(order@[j] == before[j - 1]);
                    }
                }
                assert forall|k: int| 0 <= k < i + 1 implies #[trigger] names(order@, k) by {
                    if k == i {
                        assert(order@[at as int] == k);
                    } else {
                        assert(names(before, k));
                        let a = choose|a: int| 0 <= a < i && #[trigger] before[a] == k;
                        let b = if a < at {
                            a
                        } else {
                            a + 1
                        };
                        assert(order@[b] == before[a]);
                    }
                }
            }
            i += 1;
        }
        order
    }

    /// Looks for pattern `at` in the line, of which `bytes` bytes are drawn.
    fn find(&self, at: usize, line: &str, bytes: usize) -> (spans: Vec<Option<(usize, usize)>>)
        requires
            self.wf(),
            at < self.count(),
        ensures
            spans@ == self.spans(at as int, line.spec_bytes(), bytes),
    {
        let pattern = &self.patterns[at];
        let reach = bytes.saturating_add(pattern.pattern.as_str().len());
        let mut want = if reach < line.len() {
            reach
        } else {
            line.len()
        };
        let ghost full = want;
        assert(full == search_len(line.spec_bytes(), bytes, self.text_len(at as int)));
        while want > 0 && !line.is_char_boundary(want)
            invariant
                want <= full,
                whole_chars(line.spec_bytes(), want as int) == whole_chars(
                    line.spec_bytes(),
                    full as int,
                ),
            decreases want,
        {
            want -= 1;
        }
        proof {
            // a line starts with a whole character
            vstd::utf8::encode_utf8_valid_utf8(line@);
            vstd::utf8::is_char_boundary_start_end_of_seq(line.spec_bytes());
        }
        let (text, _) = line.split_at(want);
        regex_group_spans(&pattern.re, text)
    }

    /// The text of a line in which pattern `k` is looked for, where `bytes`
    /// bytes of the line are drawn: those bytes and as many more as the text
    /// of the pattern has, cut back to a whole character.
    pub open spec fn searched(&self, k: int, line: Seq<u8>, bytes: usize) -> Seq<u8> {
        line.subrange(0, whole_chars(line, search_len(line, bytes, self.text_len(k))))
    }

    /// Where the matches of pattern `k` lie in a line of which `bytes` bytes
    /// are drawn: what its compiled source finds in the text that is searched.
    pub open spec fn spans(&self, k: int, line: Seq<u8>, bytes: usize) -> Seq<
        Option<(usize, usize)>,
    > {
        group_spans(
            compiled(source_of(self.patterns()[k].match_type, self.patterns()[k].pattern)).unwrap(),
            self.searched(k, line, bytes),
        )
    }

    /// What is noted at the characters of a line once the first `j` patterns
    /// of `order` are marked in it.
    pub open spec fn painted(
        &self,
        plain: Seq<StyledCharView>,
        order: Seq<usize>,
        j: nat,
        line: Seq<u8>,
        bytes: usize,
    ) -> Seq<StyledCharView>
        decreases j,
    {
        if j == 0 {
            plain
        } else {
            let k = order[j - 1] as int;
            paint_spans(
                self.painted(plain, order, (j - 1) as nat, line, bytes),
                self.spans(k, line, bytes),
                self.spans(k, line, bytes).len(),
                self.ids()[k],
                self.patterns()[k].style,
                self.first_num(order, (j - 1) as nat, line, bytes),
            )
        }
    }

    /// The number that the first match of the pattern after the first `j`
    /// of `order` gets: the number of matches of those before it.
    pub open spec fn first_num(&self, order: Seq<usize>, j: nat, line: Seq<u8>, bytes: usize) -> usize
        decreases j,
    {
        if j == 0 {
            0
        } else {
            match_num(
                self.first_num(order, (j - 1) as nat, line, bytes),
                self.spans(order[j - 1] as int, line, bytes).len() as int,
            )
        }
    }

    /// The numbers of those of the first `k` patterns that match at a
    /// character of a line of which `shown` characters are drawn.
    pub open spec fn hit_ids(&self, k: nat, line: Seq<u8>, bytes: usize, shown: int) -> Seq<PatternId>
        decreases k,
    {
        if k == 0 {
            Seq::empty()
        } else {
            let before = self.hit_ids((k - 1) as nat, line, bytes, shown);
            if any_hit(
                self.spans(k - 1, line, bytes),
                self.spans(k - 1, line, bytes).len(),
                shown,
            ) {
                before.push(self.ids()[k - 1])
            } else {
                before
            }
        }
    }

    /// What the invariant says of numbers and patterns.
    pub proof fn lemma_wf(&self)
        requires
            self.wf(),
        ensures
            self.ids().len() == self.patterns().len(),
            forall|i: int, j: int| 0 <= i < j < self.ids().len() ==> self.ids()[i] < self.ids()[j],
            forall|i: int|
                0 <= i < self.patterns().len() ==> compiled(
                    source_of((#[trigger] self.patterns()[i]).match_type, self.patterns()[i].pattern),
                ).is_some(),
    {
        assert forall|i: int| 0 <= i < self.patterns().len() implies compiled(
            source_of((#[trigger] self.patterns()[i]).match_type, self.patterns()[i].pattern),
        ).is_some() by {
            assert(self.patterns@[i].wf());
        }
    }
}

/// The patterns of a session, each under the number that it got when it was
/// added, with the three sets compiled from them.
#[derive(Debug, Clone)]
pub struct PatternSet {
    /// The style of text that no pattern matches.
    pub default_style: MarkStyle,
    /// The patterns.
    pub table: PatternTable,
    /// The generation of the set: it advances whenever a pattern changes.
    /// It is also the number that the next pattern gets.
    pub seq: PatternId,
    /// All tagging patterns as one set.
    pub tagged_re: RegexSet,
    /// All search patterns as one set.
    pub search_re: RegexSet,
    /// All hiding patterns as one set.
    pub hidden_re: RegexSet,
}

impl PatternSet {
    /// The sets that lines are tested against.
    pub open spec fn sets(&self) -> LineSets {
        LineSets { tagged: self.tagged_re, search: self.search_re, hidden: self.hidden_re }
    }

    /// The numbers of the patterns, in increasing order.
    pub open spec fn ids(&self) -> Seq<PatternId> {
        self.table.ids()
    }

    /// The patterns, in the order of their numbers.
    pub open spec fn patterns(&self) -> Seq<PatternView> {
        self.table.patterns()
    }

    /// The invariant: every pattern has a number below the generation, and
    /// the three sets are compiled from the patterns of their mode.
    pub open spec fn wf(&self) -> bool {
        &&& self.table.wf()
        &&& forall|i: int| 0 <= i < self.ids().len() ==> self.ids()[i] < self.seq
        &&& compiled_set(sources(self.patterns(), PatternMode::Tagging)) == Some(self.tagged_re)
        &&& compiled_set(sources(self.patterns(), PatternMode::Search)) == Some(self.search_re)
        &&& compiled_set(sources(self.patterns(), PatternMode::Hiding)) == Some(self.hidden_re)
    }

    /// The patterns `patterns` with their numbers `ids` are what the set
    /// holds.
    pub open spec fn holds(&self, ids: Seq<PatternId>, patterns: Seq<PatternView>) -> bool {
        &&& self.ids() == ids
        &&& self.patterns() == patterns
    }

    /// The three sets of the patterns compile.
    pub open spec fn sets_compile(patterns: Seq<PatternView>) -> bool {
        &&& compiled_set(sources(patterns, PatternMode::Tagging)).is_some()
        &&& compiled_set(sources(patterns, PatternMode::Search)).is_some()
        &&& compiled_set(sources(patterns, PatternMode::Hiding)).is_some()
    }

    /// Compiles the three sets from the table as it stands and moves on to
    /// the next generation. Where a set does not compile, nothing changes.
    fn rebuild_re(&mut self) -> (done: Result<(), PatternError>)
        requires
            old(self).table.wf(),
            old(self).seq < usize::MAX,
        ensures
            final(self).table == old(self).table,
            final(self).default_style == old(self).default_style,
            done.is_ok() == Self::sets_compile(old(self).patterns()),
            match done {
                Ok(_) => {
                    &&& final(self).seq == old(self).seq + 1
                    &&& compiled_set(sources(old(self).patterns(), PatternMode::Tagging)) == Some(
                        final(self).tagged_re,
                    )
                    &&& compiled_set(sources(old(self).patterns(), PatternMode::Search)) == Some(
                        final(self).search_re,
                    )
                    &&& compiled_set(sources(old(self).patterns(), PatternMode::Hiding)) == Some(
                        final(self).hidden_re,
                    )
                },
                Err(_) => {
                    &&& final(self).seq == old(self).seq
                    &&& final(self).sets() == old(self).sets()
                },
            },
    {
        let tagged = self.table.collect(PatternMode::Tagging);
        let tagged_re = match regex_set_new(&tagged) {
            Ok(set) => set,
            Err(error) => {
                return Err(regex_error(error));
            },
        };
        let search = self.table.collect(PatternMode::Search);
        let search_re = match regex_set_new(&search) {
            Ok(set) => set,
            Err(error) => {
                return Err(regex_error(error));
            },
        };
        let hidden = self.table.collect(PatternMode::Hiding);
        let hidden_re = match regex_set_new(&hidden) {
            Ok(set) => set,
            Err(error) => {
                return Err(regex_error(error));
            },
        };
        self.seq = self.seq + 1;
        self.tagged_re = tagged_re;
        self.search_re = search_re;
        self.hidden_re = hidden_re;
        Ok(())
    }

    /// Adds a pattern: the text `pattern`, to be found in the way
    /// `match_type`, drawn in `style`, with the effect `mode`. The pattern
    /// gets the generation of the set as its number, and the set moves on to
    /// the next generation. Where the pattern or one of the sets with it does
    /// not compile, the pattern is refused and nothing changes.
    pub fn add(&mut self, pattern: &str, match_type: MatchType, style: MarkStyle, mode: PatternMode) -> (added:
        Result<PatternId, PatternError>)
        requires
            old(self).wf(),
            old(self).seq < usize::MAX,
        ensures
            final(self).wf(),
            final(self).default_style == old(self).default_style,
            added.is_ok() == (compiled(source_of(match_type, pattern@)).is_some()
                && Self::sets_compile(
                old(self).patterns().push(
                    PatternView { pattern: pattern@, style, mode, match_type },
                ),
            )),
            match added {
                Ok(id) => {
                    &&& id == old(self).seq
                    &&& final(self).seq == old(self).seq + 1
                    &&& final(self).holds(
                        old(self).ids().push(id),
                        old(self).patterns().push(
                            PatternView { pattern: pattern@, style, mode, match_type },
                        ),
                    )
                },
                Err(_) => {
                    &&& final(self).seq == old(self).seq
                    &&& final(self).sets() == old(self).sets()
                    &&& final(self).holds(old(self).ids(), old(self).patterns())
                },
            },
    {
        let id = self.seq;
        let source = match_type.build_re(pattern);
        let re = match regex_new(source.as_str()) {
            Ok(re) => re,
            Err(error) => {
                return Err(regex_error(error));
            },
        };
        let text = String::from_str(pattern);
        let pat = Pattern { pattern: text, style, mode, match_type, re };
        let ghost view = PatternView { pattern: pattern@, style, mode, match_type };
        let ghost before = self.table;
        self.table.ids.push(id);
        self.table.patterns.push(pat);
        proof {
            assert(self.table.patterns() =~= before.patterns().push(view));
            assert(self.table.wf()) by {
                assert forall|i: int, j: int|
                    0 <= i < j < self.table.ids@.len() implies self.table.ids@[i]
                    < self.table.ids@[j] by {
                    if j == before.ids@.len() {
                        assert(old(self).ids()[i] < old(self).seq);
                    } else {
                        assert(before.ids@[i] < before.ids@[j]);
                    }
                }
                assert forall|i: int| 0 <= i < self.table.patterns@.len() implies (
                #[trigger] self.table.patterns@[i]).wf() by {
                    if i < before.patterns@.len() {
                        assert(before.patterns@[i].wf());
                    }
                }
            }
        }
        let ghost grown = self.table;
        proof {
            assert forall|i: int| 0 <= i < grown.ids().len() implies #[trigger] grown.ids()[i]
                <= id by {
                if i < before.ids@.len() {
                    assert(old(self).ids()[i] < old(self).seq);
                }
            }
        }
        match self.rebuild_re() {
            Ok(_) => {
                assert(self.table == grown);
                Ok(id)
            },
            Err(error) => {
                self.table.ids.pop();
                self.table.patterns.pop();
                proof {
                    assert(self.table.ids@ =~= before.ids@);
                    assert(self.table.patterns@ =~= before.patterns@);
                    assert(self.table.patterns() =~= before.patterns());
                }
                Err(error)
            },
        }
    }

    /// Takes the pattern with the number `id` out of the set, which moves on
    /// to the next generation. Where one of the sets without it does not
    /// compile, nothing changes.
    pub fn remove(&mut self, id: PatternId) -> (removed: Result<(), PatternError>)
        requires
            old(self).wf(),
            old(self).seq < usize::MAX,
            old(self).ids().contains(id),
        ensures
            final(self).wf(),
            final(self).default_style == old(self).default_style,
            exists|k: int|
                0 <= k < old(self).ids().len() && #[trigger] old(self).ids()[k] == id
                    && removed.is_ok() == Self::sets_compile(old(self).patterns().remove(k))
                    && match removed {
                    Ok(_) => {
                        &&& final(self).seq == old(self).seq + 1
                        &&& final(self).holds(
                            old(self).ids().remove(k),
                            old(self).patterns().remove(k),
                        )
                    },
                    Err(_) => {
                        &&& final(self).seq == old(self).seq
                        &&& final(self).sets() == old(self).sets()
                        &&& final(self).holds(old(self).ids(), old(self).patterns())
                    },
                },
    {
        let k = match self.table.position(id) {
            Some(k) => k,
            None => {
                return Ok(());
            },
        };
        let ghost before = self.table;
        let old_id = self.table.ids.remove(k);
        let old_pat = self.table.patterns.remove(k);
        proof {
            assert(self.table.patterns() =~= before.patterns().remove(k as int));
            assert(self.table.wf()) by {
                assert forall|i: int, j: int|
                    0 <= i < j < self.table.ids@.len() implies self.table.ids@[i]
                    < self.table.ids@[j] by {
                    let a = if i < k {
                        i
                    } else {
                        i + 1
                    };
                    let b = if j < k {
                        j
                    } else {
                        j + 1
                    };
                    assert(before.ids@[a] < before.ids@[b]);
                }
                assert forall|i: int| 0 <= i < self.table.patterns@.len() implies (
                #[trigger] self.table.patterns@[i]).wf() by {
                    let a = if i < k {
                        i
                    } else {
                        i + 1
                    };
                    assert(before.patterns@[a].wf());
                }
            }
            assert forall|i: int| 0 <= i < self.ids().len() implies self.ids()[i] < self.seq by {
                let a = if i < k {
                    i
                } else {
                    i + 1
                };
                assert(old(self).ids()[a] < old(self).seq);
            }
        }
        match self.rebuild_re() {
            Ok(_) => Ok(()),
            Err(error) => {
                self.table.ids.insert(k, old_id);
                self.table.patterns.insert(k, old_pat);
                proof {
                    assert(self.table.ids@ =~= before.ids@);
                    assert(self.table.patterns@ =~= before.patterns@);
                    assert(self.table.patterns() =~= before.patterns());
                }
                Err(error)
            },
        }
    }

    /// Gives the pattern with the number `id` a new text, kind, style and
    /// mode; the set moves on to the next generation. Where the pattern or
    /// one of the sets with it does not compile, nothing changes.
    pub fn with(
        &mut self,
        id: PatternId,
        pattern: &str,
        match_type: MatchType,
        style: MarkStyle,
        mode: PatternMode,
    ) -> (changed: Result<(), PatternError>)
        requires
            old(self).wf(),
            old(self).seq < usize::MAX,
            old(self).ids().contains(id),
        ensures
            final(self).wf(),
            final(self).default_style == old(self).default_style,
            exists|k: int|
                0 <= k < old(self).ids().len() && #[trigger] old(self).ids()[k] == id
                    && changed.is_ok() == (compiled(source_of(match_type, pattern@)).is_some()
                    && Self::sets_compile(
                    old(self).patterns().update(
                        k,
                        PatternView { pattern: pattern@, style, mode, match_type },
                    ),
                )) && match changed {
                    Ok(_) => {
                        &&& final(self).seq == old(self).seq + 1
                        &&& final(self).holds(
                            old(self).ids(),
                            old(self).patterns().update(
                                k,
                                PatternView { pattern: pattern@, style, mode, match_type },
                            ),
                        )
                    },
                    Err(_) => {
                        &&& final(self).seq == old(self).seq
                        &&& final(self).sets() == old(self).sets()
                        &&& final(self).holds(old(self).ids(), old(self).patterns())
                    },
                },
    {
        let k = match self.table.position(id) {
            Some(k) => k,
            None => {
                return Ok(());
            },
        };
        let source = match_type.build_re(pattern);
        let re = match regex_new(source.as_str()) {
            Ok(re) => re,
            Err(error) => {
                return Err(regex_error(error));
            },
        };
        let text = String::from_str(pattern);
        let pat = Pattern { pattern: text, style, mode, match_type, re };
        let ghost view = PatternView { pattern: pattern@, style, mode, match_type };
        let ghost before = self.table;
        let old_pat = self.table.patterns.remove(k);
        self.table.patterns.insert(k, pat);
        proof {
            assert(self.table.patterns() =~= before.patterns().update(k as int, view));
            assert(self.table.wf()) by {
                assert forall|i: int| 0 <= i < self.table.patterns@.len() implies (
                #[trigger] self.table.patterns@[i]).wf() by {
                    if i != k {
                        assert(before.patterns@[i].wf());
                    }
                }
            }
        }
        let ghost changed = self.table;
        match self.rebuild_re() {
            Ok(_) => {
                assert(self.table == changed);
                assert forall|i: int| 0 <= i < self.ids().len() implies self.ids()[i]
                    < self.seq by {
                    assert(old(self).ids()[i] < old(self).seq);
                }
                Ok(())
            },
            Err(error) => {
                self.table.patterns.remove(k);
                self.table.patterns.insert(k, old_pat);
                proof {
                    assert(self.table.patterns@ =~= before.patterns@);
                    assert(self.table.patterns() =~= before.patterns());
                }
                Err(error)
            },
        }
    }

    /// Whether the set has a pattern with the number `id`.
    pub fn contains(&self, id: PatternId) -> (found: bool)
        requires
            self.wf(),
        ensures
            found == self.ids().contains(id),
    {
        self.table.position(id).is_some()
    }

    /// The pattern with the number `id`.
    pub fn get(&self, id: PatternId) -> (pattern: &Pattern)
        requires
            self.wf(),
            self.ids().contains(id),
        ensures
            exists|k: int|
                0 <= k < self.ids().len() && #[trigger] self.ids()[k] == id && pattern@
                    == self.patterns()[k],
    {
        self.table.lookup(id)
    }

    /// Whether the pattern with the number `id` tags lines.
    pub fn is_tagging(&self, id: PatternId) -> (tagging: bool)
        requires
            self.wf(),
            self.ids().contains(id),
        ensures
            exists|k: int|
                0 <= k < self.ids().len() && #[trigger] self.ids()[k] == id && tagging == (
                self.patterns()[k].mode == PatternMode::Tagging),
    {
        self.table.mode_of(id) == PatternMode::Tagging
    }

    /// Whether the pattern with the number `id` hides lines.
    pub fn is_hiding(&self, id: PatternId) -> (hiding: bool)
        requires
            self.wf(),
            self.ids().contains(id),
        ensures
            exists|k: int|
                0 <= k < self.ids().len() && #[trigger] self.ids()[k] == id && hiding == (
                self.patterns()[k].mode == PatternMode::Hiding),
    {
        self.table.mode_of(id) == PatternMode::Hiding
    }

    /// What `process_line` makes of the line `text`: the characters that are
    /// drawn, what is noted at them once all patterns are marked, the
    /// patterns that match at one of them, and whether the line was cropped.
    pub open spec fn processed_as(
        &self,
        text: Seq<char>,
        crop_chars: Option<usize>,
        chars: Seq<StyledChar>,
        matches: Seq<PatternId>,
        cropped: bool,
    ) -> bool {
        let limit = match crop_chars {
            Some(limit) => limit as int,
            None => usize::MAX as int,
        };
        let shown = shown_chars(text, limit);
        let bytes = match_num(0, bytes_of(text, kept_chars(text, limit)));
        &&& chars_of(chars) == text.subrange(0, shown as int)
        &&& exists|order: Seq<usize>|
            #![trigger self.table.is_order(order, self.table.count())]
            self.table.is_order(order, self.table.count()) && views(chars) == self.table.painted(
                plain(shown, self.default_style),
                order,
                self.table.count(),
                encode_utf8(text),
                bytes,
            )
        &&& matches == self.table.hit_ids(
            self.table.count(),
            encode_utf8(text),
            bytes,
            shown as int,
        )
        &&& cropped == (text.len() > 0 && kept_chars(text, limit) >= limit)
    }

    /// Takes a line apart into the characters that are drawn, each with its
    /// style and the patterns that match at it. At most `crop_chars`
    /// characters are taken, but one at least; a newline at their end is not
    /// drawn. Then the matches of each pattern are marked, the patterns with
    /// the longer text first. Returns the characters, the numbers of the
    /// patterns that match at one of them in increasing order, and whether
    /// the line was cropped.
    pub fn process_line(&self, line: &str, crop_chars: Option<usize>) -> (processed: (
        Vec<StyledChar>,
        Vec<PatternId>,
        bool,
    ))
        requires
            self.wf(),
        ensures
            self.processed_as(line@, crop_chars, processed.0@, processed.1@, processed.2),
    {
        let limit = match crop_chars {
            Some(limit) => limit,
            None => usize::MAX,
        };
        let (mut pline, bytes, cropped) = plain_chars(line, limit, self.default_style);
        let ghost shown = pline@.len() as int;
        let ghost base = views(pline@);
        let ghost text = line.spec_bytes();
        proof {
            crate::styled::lemma_views(pline@);
        }
        let order = self.table.length_order();
        let n = order.len();
        let mut hits: Vec<bool> = Vec::new();
        let mut k: usize = 0;
        while k < n
            invariant
                k <= n,
                hits@.len() == k,
                forall|i: int| 0 <= i < k ==> !hits@[i],
            decreases n - k,
        {
            hits.push(false);
            k += 1;
        }
        let mut num: usize = 0;
        let mut j: usize = 0;
        while j < n
            invariant
                self.wf(),
                n == self.table.count(),
                self.table.is_order(order@, n as nat),
                text == line.spec_bytes(),
                j <= n,
                hits@.len() == n,
                pline@.len() == shown,
                chars_of(pline@) == line@.subrange(0, shown),
                views(pline@) == self.table.painted(base, order@, j as nat, text, bytes),
                num == self.table.first_num(order@, j as nat, text, bytes),
                forall|i: int|
                    0 <= i < n ==> hits@[i] == (exists|a: int|
                        0 <= a < j && #[trigger] order@[a] == i && any_hit(
                            self.table.spans(i, text, bytes),
                            self.table.spans(i, text, bytes).len(),
                            shown,
                        )),
            decreases n - j,
        {
            let at = order[j];
            let spans = self.table.find(at, line, bytes);
            let hit = mark_spans(
                &mut pline,
                &spans,
                self.table.ids[at],
                self.table.patterns[at].style,
                num,
            );
            let ghost before = hits@;
            hits.set(at, hit);
            num = num.saturating_add(spans.len());
            proof {
                assert forall|i: int| 0 <= i < n implies hits@[i] == (exists|a: int|
                    0 <= a < j + 1 && #[trigger] order@[a] == i && any_hit(
                        self.table.spans(i, text, bytes),
                        self.table.spans(i, text, bytes).len(),
                        shown,
                    )) by {
                    if i == at {
                        if hit {
                            assert(order@[j as int] == i);
                        }
                    } else {
                        if before[i] {
                            let a = choose|a: int|
                                0 <= a < j && #[trigger] order@[a] == i && any_hit(
                                    self.table.spans(i, text, bytes),
                                    self.table.spans(i, text, bytes).len(),
                                    shown,
                                );
                            assert(order@[a] == i);
                        }
                    }
                    if !hits@[i] && exists|a: int|
                        0 <= a < j + 1 && #[trigger] order@[a] == i && any_hit(
                            self.table.spans(i, text, bytes),
                            self.table.spans(i, text, bytes).len(),
                            shown,
                        ) {
                        let a = choose|a: int|
                            0 <= a < j + 1 && #[trigger] order@[a] == i && any_hit(
                                self.table.spans(i, text, bytes),
                                self.table.spans(i, text, bytes).len(),
                                shown,
                            );
                        if a < j {
                            assert(order@[a] == i);
                            assert(before[i]);
                        }
                    }
                }
            }
            j += 1;
        }
        // every pattern stands in the order, so what was noted holds of each
        let mut matches: Vec<PatternId> = Vec::new();
        let mut k: usize = 0;
        while k < n
            invariant
                self.wf(),
                n == self.table.count(),
                self.table.is_order(order@, n as nat),
                k <= n,
                hits@.len() == n,
                matches@ == self.table.hit_ids(k as nat, text, bytes, shown),
                forall|i: int|
                    0 <= i < n ==> hits@[i] == (exists|a: int|
                        0 <= a < n && #[trigger] order@[a] == i && any_hit(
                            self.table.spans(i, text, bytes),
                            self.table.spans(i, text, bytes).len(),
                            shown,
                        )),
            decreases n - k,
        {
            proof {
                assert(names(order@, k as int));
                let a = choose|a: int| 0 <= a < n && #[trigger] order@[a] == k;
                assert(order@[a] == k);
            }
            if hits[k] {
                matches.push(self.table.ids[k]);
            }
            k += 1;
        }
        (pline, matches, cropped)
    }

    /// The set of all tagging patterns.
    pub fn get_tagged_re(&self) -> (set: RegexSet)
        ensures
            set == self.tagged_re,
    {
        self.tagged_re.clone()
    }

    /// The set of all search patterns.
    pub fn get_search_re(&self) -> (set: RegexSet)
        ensures
            set == self.search_re,
    {
        self.search_re.clone()
    }

    /// The set of all hiding patterns.
    pub fn get_hidden_re(&self) -> (set: RegexSet)
        ensures
            set == self.hidden_re,
    {
        self.hidden_re.clone()
    }

    /// A set without patterns at generation 1.
    pub fn new(default_style: MarkStyle) -> (set: PatternSet)
        ensures
            set.wf(),
            set.default_style == default_style,
            set.seq == 1,
            set.ids() == Seq::<PatternId>::empty(),
            set.patterns() == Seq::<PatternView>::empty(),
    {
        let tagged_re = set_empty();
        let search_re = set_empty();
        let hidden_re = set_empty();
        let table = PatternTable { ids: Vec::new(), patterns: Vec::new() };
        assert(table.patterns() =~= Seq::<PatternView>::empty());
        PatternSet { default_style, table, seq: 1, tagged_re, search_re, hidden_re }
    }
}

} // verus!
