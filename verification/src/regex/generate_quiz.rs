//! Random expressions that make a fair quiz: small, and matching neither
//! too few nor too many words.

use crate::regex::alphabet::{leading_letters, word_text, Alphabet, ALPHABET_SIZE};
use crate::regex::matcher::{anchored, match_each, pattern_compiles, pattern_matches};
use crate::regex::random::{random_below, random_index, random_letter, random_ratio, total_weight};
use crate::regex::regex_tree::{node_count_first, views_of, Expression, RegexAst};
use vstd::prelude::*;

verus! {

/// The number of letters that a quiz draws on, the first of the alphabet.
pub struct Difficulty(pub u8);

/// The letters that a quiz draws on.
pub struct AlphabetSet(pub Vec<Alphabet>);

/// The greatest number of nodes of a quiz's expression.
pub const MAX_QUIZ_TREE_SIZE: u8 = 12;

/// The number of random words that an expression is tried on.
pub const SAMPLE_SIZE: usize = 1000;

/// The number of expressions that are tried before generation gives up.
pub const MAX_GENERATION_ATTEMPTS: u32 = 1000000;

/// The length of a random word is the number of successes among this many
/// trials.
pub const WORD_LENGTH_TRIALS: u8 = 15;

/// A trial succeeds with the probability of three in ten: this numerator
/// over [`SUCCESS_DENOMINATOR`]. The number of cuts that part a size is
/// drawn with the same probability.
pub const SUCCESS_NUMERATOR: u32 = 3;

/// The denominator of the probability with which a trial succeeds.
pub const SUCCESS_DENOMINATOR: u32 = 10;

/// A share of matches strictly between one fifth and four fifths.
pub open spec fn acceptable_rate(matched: int, sampled: int) -> bool {
    sampled < 5 * matched && 5 * matched < 4 * sampled
}

/// Every letter of the expression is one of `letters`.
pub open spec fn drawn_from(e: Expression, letters: Seq<Alphabet>) -> bool {
    forall|x: Alphabet| e.uses(x) ==> letters.contains(x)
}

/// The numbers added up.
pub open spec fn sum_first(parts: Seq<u8>, count: int) -> int
    decreases count,
{
    if count <= 0 || count > parts.len() {
        0
    } else {
        sum_first(parts, count - 1) + parts[count - 1]
    }
}

/// What is stated of an expression generated within a size.
pub open spec fn generated_within(e: Expression, letters: Seq<Alphabet>, size: int) -> bool {
    &&& e.proper()
    &&& drawn_from(e, letters)
    &&& e.node_count() <= if size < 1 {
        1
    } else {
        size
    }
}

/// The number of successes among the first `count` outcomes of trials.
pub open spec fn successes_in(outcomes: Seq<bool>, count: int) -> int
    decreases count,
{
    if count <= 0 || count > outcomes.len() {
        0
    } else {
        successes_in(outcomes, count - 1) + if outcomes[count - 1] {
            1int
        } else {
            0int
        }
    }
}

/// `number` is the number of successes among the outcomes of `trials`
/// trials.
pub open spec fn counts_successes(outcomes: Seq<bool>, trials: int, number: int) -> bool {
    outcomes.len() == trials && number == successes_in(outcomes, trials)
}

/// The weights with which the kind of the root of a tree is drawn, in the
/// order `Epsilon`, `Literal`, `Star`, `Concatenation`, `Alternation`. The
/// weight of a kind that the size cannot afford is 0: a star takes two
/// nodes at least, a concatenation and an alternation three.
pub open spec fn weights_for(size: int) -> Seq<u32> {
    seq![
        2u32,
        10u32,
        if size >= 2 {
            6u32
        } else {
            0u32
        },
        if size >= 3 {
            4u32
        } else {
            0u32
        },
        if size >= 3 {
            4u32
        } else {
            0u32
        },
    ]
}

/// The place of the kind of a tree in the list of weights.
pub open spec fn kind_of(e: Expression) -> int {
    match e {
        Expression::Epsilon => 0,
        Expression::Literal(_) => 1,
        Expression::Star(_) => 2,
        Expression::Concatenation(_) => 3,
        Expression::Alternation(_) => 4,
    }
}

/// Whether a tree can be generated within a size: a star takes one node
/// and leaves the rest to its inner tree, which asks for a size of 2 at
/// least; a concatenation and an alternation take one node and part the
/// rest among their parts, which asks for a size of 3 at least.
pub open spec fn affordable(e: Expression, size: int) -> bool
    decreases e,
{
    match e {
        Expression::Epsilon => true,
        Expression::Literal(_) => true,
        Expression::Star(inner) => size >= 2 && affordable(*inner, size - 1),
        Expression::Concatenation(items) => size >= 3 && parted(items, size - 1),
        Expression::Alternation(items) => size >= 3 && parted(items, size - 1),
    }
}

/// `parts` are positive numbers, one for each of `count` trees, that add
/// up to `budget`.
pub open spec fn shares(parts: Seq<u8>, budget: int, count: int) -> bool {
    &&& parts.len() == count
    &&& sum_first(parts, count) == budget
    &&& forall|i: int| 0 <= i < parts.len() ==> #[trigger] parts[i] >= 1
}

/// Whether the trees can be generated as the parts of a tree: the budget
/// is parted into positive numbers, one for each tree, and each tree can be
/// generated within its part.
pub open spec fn parted(items: Seq<Expression>, budget: int) -> bool
    decreases items,
{
    exists|parts: Seq<u8>| #[trigger]
        shares(parts, budget, items.len() as int) && forall|i: int|
            0 <= i < items.len() ==> affordable(#[trigger] items[i], parts[i] as int)
}

/// A sample of words to try an expression on: `SAMPLE_SIZE` words over
/// the letters, of no more than `WORD_LENGTH_TRIALS` letters each.
pub open spec fn sample_over(words: Seq<Seq<Alphabet>>, letters: Seq<Alphabet>) -> bool {
    &&& words.len() == SAMPLE_SIZE
    &&& forall|i: int|
        0 <= i < words.len() ==> (#[trigger] words[i]).len() <= WORD_LENGTH_TRIALS
    &&& forall|i: int, k: int|
        0 <= i < words.len() && 0 <= k < words[i].len() ==> letters.contains(
            #[trigger] words[i][k],
        )
}

/// The number of words among the first `count` of a sample in which the
/// pattern has a match.
pub open spec fn matched_first(pattern: Seq<char>, words: Seq<Seq<Alphabet>>, count: int) -> int
    decreases count,
{
    if count <= 0 || count > words.len() {
        0
    } else {
        matched_first(pattern, words, count - 1) + if pattern_matches(
            pattern,
            word_text(words[count - 1]),
        ) {
            1int
        } else {
            0int
        }
    }
}

/// `matched` is the number of words of a sample over the letters that the
/// expression matches.
pub open spec fn estimated_on(
    words: Seq<Seq<Alphabet>>,
    e: Expression,
    letters: Seq<Alphabet>,
    matched: int,
) -> bool {
    sample_over(words, letters) && matched == matched_first(
        anchored(e.pattern()),
        words,
        SAMPLE_SIZE as int,
    )
}

/// The expression was judged good as a quiz problem: its pattern compiles,
/// and of a sample of words over the letters it matches a share strictly
/// inside the acceptance band.
pub open spec fn judged_good(e: Expression, letters: Seq<Alphabet>) -> bool {
    &&& pattern_compiles(anchored(e.pattern()))
    &&& exists|words: Seq<Seq<Alphabet>>, matched: int| #[trigger]
        estimated_on(words, e, letters, matched) && acceptable_rate(matched, SAMPLE_SIZE as int)
}

/// The greatest set place of a table of cuts that is no greater than `at`;
/// 0 where there is none.
pub open spec fn cut_before(cut: Seq<bool>, at: int) -> int
    decreases at,
{
    if at <= 0 || at >= cut.len() {
        0
    } else if cut[at] {
        at
    } else {
        cut_before(cut, at - 1)
    }
}

/// The distances between neighbouring set places of a table of cuts, in
/// order, as far as the place `upto`.
pub open spec fn gaps_first(cut: Seq<bool>, upto: int) -> Seq<u8>
    decreases upto,
{
    if upto <= 0 || upto >= cut.len() {
        Seq::empty()
    } else if cut[upto] {
        gaps_first(cut, upto - 1).push((upto - cut_before(cut, upto - 1)) as u8)
    } else {
        gaps_first(cut, upto - 1)
    }
}

/// The distances between neighbouring set places of a table of cuts, in
/// order.
pub open spec fn gaps(cut: Seq<bool>) -> Seq<u8> {
    gaps_first(cut, cut.len() - 1)
}

/// `parts` are the pieces into which `cut` cuts the range from 0 to `sum`:
/// the table has a place for each number of the range, its first and its
/// last place are set, and the parts are the distances between neighbouring
/// set places.
pub open spec fn cut_into(cut: Seq<bool>, sum: int, parts: Seq<u8>) -> bool {
    &&& cut.len() == sum + 1
    &&& cut[0]
    &&& cut[sum]
    &&& parts == gaps(cut)
}

/// Whether a share of `matched` among `sampled` words lies strictly
/// between the least and the greatest acceptance rate of a quiz, 0.2 and
/// 0.8.
pub fn in_acceptance_band(matched: usize, sampled: usize) -> (r: bool)
    ensures
        r == acceptable_rate(matched as int, sampled as int),
{
    let m: u128 = matched as u128;
    let n: u128 = sampled as u128;
    n < 5 * m && 5 * m < 4 * n
}

/// The number of successes among `trials` random trials, each of which
/// succeeds with the probability of `SUCCESS_NUMERATOR` in
/// `SUCCESS_DENOMINATOR`.
fn successes(trials: u8) -> (r: u8)
    ensures
        r <= trials,
        exists|outcomes: Seq<bool>| #[trigger] counts_successes(outcomes, trials as int, r as int),
{
    let mut count: u8 = 0;
    let mut i: u8 = 0;
    let ghost mut outcomes: Seq<bool> = Seq::empty();
    while i < trials
        invariant
            count <= i <= trials,
            counts_successes(outcomes, i as int, count as int),
        decreases trials - i,
    {
        let success = random_ratio(SUCCESS_NUMERATOR, SUCCESS_DENOMINATOR);
        proof {
            lemma_successes_prefix(outcomes, outcomes.push(success), i as int);
            outcomes = outcomes.push(success);
        }
        if success {
            count += 1;
        }
        i += 1;
    }
    count
}

/// The successes among the first outcomes do not depend on what follows
/// them; there are no more of them than outcomes.
proof fn lemma_successes_prefix(short: Seq<bool>, long: Seq<bool>, count: int)
    requires
        0 <= count <= short.len() <= long.len(),
        forall|i: int| 0 <= i < short.len() ==> short[i] == long[i],
    ensures
        successes_in(short, count) == successes_in(long, count),
        0 <= successes_in(short, count) <= count,
    decreases count,
{
    if count > 0 {
        lemma_successes_prefix(short, long, count - 1);
    }
}

/// A distribution of words: the length is drawn first, then each letter.
struct WordDistribution<'a> {
    alphabet_set: &'a AlphabetSet,
}

impl<'a> WordDistribution<'a> {
    /// A random word over the letters. Its length is the number of
    /// successes among `WORD_LENGTH_TRIALS` trials, and each of its letters
    /// is drawn from the set.
    fn sample(&self) -> (word: Vec<Alphabet>)
        requires
            self.alphabet_set.0@.len() > 0,
        ensures
            word@.len() <= WORD_LENGTH_TRIALS,
            exists|outcomes: Seq<bool>| #[trigger]
                counts_successes(outcomes, WORD_LENGTH_TRIALS as int, word@.len() as int),
            forall|i: int| 0 <= i < word@.len() ==> self.alphabet_set.0@.contains(word@[i]),
    {
        let length = successes(WORD_LENGTH_TRIALS);
        let mut word: Vec<Alphabet> = Vec::new();
        let mut i: u8 = 0;
        while i < length
            invariant
                i <= length <= WORD_LENGTH_TRIALS,
                self.alphabet_set.0@.len() > 0,
                word@.len() == i,
                forall|k: int| 0 <= k < word@.len() ==> self.alphabet_set.0@.contains(word@[k]),
            decreases length - i,
        {
            word.push(alphabet_distribution(self.alphabet_set));
            i += 1;
        }
        word
    }
}

/// A random letter of the set.
fn alphabet_distribution(alphabets: &AlphabetSet) -> (r: Alphabet)
    requires
        alphabets.0@.len() > 0,
    ensures
        alphabets.0@.contains(r),
{
    random_letter(&alphabets.0)
}

/// The distribution of the words that an expression is tried on.
fn word_distribution(alphabets: &AlphabetSet) -> (r: WordDistribution<'_>)
    ensures
        r.alphabet_set == alphabets,
{
    WordDistribution { alphabet_set: alphabets }
}

/// Tries the expression on a sample of `SAMPLE_SIZE` random words over
/// the letters and counts those that it matches. `None` if the pattern of
/// the expression cannot be compiled.
pub fn estimate_acceptance_probability(alphabets: &AlphabetSet, regex_ast: &RegexAst) -> (r:
    Option<usize>)
    requires
        alphabets.0@.len() > 0,
    ensures
        r is Some == pattern_compiles(anchored(regex_ast@.pattern())),
        r matches Some(matched) ==> matched <= SAMPLE_SIZE && exists|words: Seq<Seq<Alphabet>>| #[trigger]
            estimated_on(words, regex_ast@, alphabets.0@, matched as int),
{
    let words = word_distribution(alphabets);
    let mut texts: Vec<String> = Vec::new();
    let mut i: usize = 0;
    let ghost mut sample: Seq<Seq<Alphabet>> = Seq::empty();
    while i < SAMPLE_SIZE
        invariant
            i <= SAMPLE_SIZE,
            texts@.len() == i,
            sample.len() == i,
            words.alphabet_set == alphabets,
            alphabets.0@.len() > 0,
            forall|j: int| 0 <= j < i ==> (#[trigger] texts@[j])@ == word_text(sample[j]),
            forall|j: int| 0 <= j < i ==> (#[trigger] sample[j]).len() <= WORD_LENGTH_TRIALS,
            forall|j: int, k: int|
                0 <= j < i && 0 <= k < sample[j].len() ==> alphabets.0@.contains(
                    #[trigger] sample[j][k],
                ),
        decreases SAMPLE_SIZE - i,
    {
        let w = words.sample();
        texts.push(Alphabet::slice_to_plain_string(w.as_slice()));
        proof {
            sample = sample.push(w@);
        }
        i += 1;
    }
    let ghost pattern = anchored(regex_ast@.pattern());
    let found = match match_each(regex_ast.anchored_pattern().as_str(), &texts) {
        Some(found) => found,
        None => {
            return None;
        },
    };
    let mut matched: usize = 0;
    let mut k: usize = 0;
    while k < found.len()
        invariant
            matched <= k <= found@.len(),
            found@.len() == SAMPLE_SIZE,
            sample.len() == SAMPLE_SIZE,
            texts@.len() == SAMPLE_SIZE,
            forall|j: int|
                0 <= j < texts@.len() ==> #[trigger] found@[j] == pattern_matches(
                    pattern,
                    texts@[j]@,
                ),
            forall|j: int|
                0 <= j < SAMPLE_SIZE ==> (#[trigger] texts@[j])@ == word_text(sample[j]),
            matched == matched_first(pattern, sample, k as int),
        decreases found@.len() - k,
    {
        assert(found@[k as int] == pattern_matches(pattern, texts@[k as int]@));
        if found[k] {
            matched += 1;
        }
        k += 1;
    }
    assert(estimated_on(sample, regex_ast@, alphabets.0@, matched as int));
    Some(matched)
}

/// Whether the expression, tried on a sample of random words, matches
/// neither too few nor too many of them: more than a fifth and less than
/// four fifths. An expression whose pattern cannot be compiled is no good.
/// Every expression can come out as no good: a sample may hold one word a
/// thousand times.
pub fn good_as_a_quiz_problem(alphabets: &AlphabetSet, ast: &RegexAst) -> (r: bool)
    requires
        alphabets.0@.len() > 0,
    ensures
        r ==> judged_good(ast@, alphabets.0@),
        !pattern_compiles(anchored(ast@.pattern())) ==> !r,
{
    match estimate_acceptance_probability(alphabets, ast) {
        Some(matched) => {
            let good = in_acceptance_band(matched, SAMPLE_SIZE);
            proof {
                if good {
                    let words = choose|words: Seq<Seq<Alphabet>>| #[trigger]
                        estimated_on(words, ast@, alphabets.0@, matched as int);
                    assert(estimated_on(words, ast@, alphabets.0@, matched as int)
                        && acceptable_rate(matched as int, SAMPLE_SIZE as int));
                }
            }
            good
        },
        None => false,
    }
}

/// The letters of a difficulty: that many, from the beginning of the
/// alphabet; all of them, where the difficulty is above their number.
pub fn alphabets_used_with(diff: &Difficulty) -> (r: AlphabetSet)
    ensures
        r.0@ == leading_letters(diff.0 as nat),
{
    let mut letters: Vec<Alphabet> = Vec::new();
    let mut i: usize = 0;
    while i < ALPHABET_SIZE && i < diff.0 as usize
        invariant
            i <= ALPHABET_SIZE,
            i <= diff.0,
            letters@.len() == i,
            forall|k: int| 0 <= k < i ==> letters@[k] == Alphabet::at(k),
        decreases ALPHABET_SIZE - i,
    {
        letters.push(Alphabet::from_index(i));
        i += 1;
    }
    assert(letters@ =~= leading_letters(diff.0 as nat));
    AlphabetSet(letters)
}

/// A distribution of lists of positive numbers whose sum is `max_sum`. The
/// numbers bound the sizes of the subtrees of a generated tree.
struct PartitionTreeSize {
    max_sum: u8,
}

impl PartitionTreeSize {
    /// Cuts the range from 0 to `max_sum` at random places and gives the
    /// lengths of the pieces, in order. The number of the places is the
    /// number of successes among `max_sum` trials; places may fall together,
    /// and the two ends of the range are cuts in any case.
    fn sample(&self) -> (parts: Vec<u8>)
        requires
            self.max_sum < u8::MAX,
        ensures
            exists|cut: Seq<bool>| #[trigger] cut_into(cut, self.max_sum as int, parts@),
            sum_first(parts@, parts@.len() as int) == self.max_sum,
            forall|i: int| 0 <= i < parts@.len() ==> parts@[i] >= 1,
            self.max_sum >= 1 ==> parts@.len() >= 1,
    {
        let target_sum = self.max_sum;
        let partition_count = successes(target_sum);
        // the places of the cuts: 0, `target_sum` and the random ones
        let mut cut: Vec<bool> = Vec::new();
        let mut n: u8 = 0;
        while n <= target_sum
            invariant
                n <= target_sum + 1,
                target_sum < u8::MAX,
                cut@.len() == n,
            decreases target_sum + 1 - n,
        {
            cut.push(false);
            n += 1;
        }
        cut.set(0, true);
        cut.set(target_sum as usize, true);
        let mut placed: u8 = 0;
        while placed < partition_count
            invariant
                placed <= partition_count,
                target_sum < u8::MAX,
                cut@.len() == target_sum + 1,
                cut@[0],
                cut@[target_sum as int],
            decreases partition_count - placed,
        {
            let place = random_below(target_sum + 1);
            cut.set(place as usize, true);
            placed += 1;
        }
        let parts = parts_between(&cut);
        assert(cut_into(cut@, target_sum as int, parts@));
        parts
    }
}

/// The lengths of the pieces between neighbouring cuts, in order. The
/// lengths are positive and add up to the length of the range that the
/// table stands for.
pub fn parts_between(cut: &Vec<bool>) -> (parts: Vec<u8>)
    requires
        1 <= cut@.len() <= 256,
        cut@[0],
        cut@[cut@.len() - 1],
    ensures
        parts@ == gaps(cut@),
        sum_first(parts@, parts@.len() as int) == cut@.len() - 1,
        forall|i: int| 0 <= i < parts@.len() ==> parts@[i] >= 1,
        cut@.len() >= 2 ==> parts@.len() >= 1,
{
    let last = cut.len() - 1;
    let mut parts: Vec<u8> = Vec::new();
    let mut previous: usize = 0;
    let mut k: usize = 1;
    while k <= last
        invariant
            1 <= k <= last + 1,
            last == cut@.len() - 1,
            last <= 255,
            previous < k,
            cut@[last as int],
            previous == cut_before(cut@, k - 1),
            parts@ == gaps_first(cut@, k - 1),
            sum_first(parts@, parts@.len() as int) == previous,
            forall|i: int| 0 <= i < parts@.len() ==> parts@[i] >= 1,
            previous >= 1 ==> parts@.len() >= 1,
            k == last + 1 ==> previous == last,
        decreases last + 1 - k,
    {
        if cut[k] {
            let ghost before = parts@;
            let part: usize = k - previous;
            parts.push(part as u8);
            proof {
                lemma_sum_first_prefix(before, parts@, before.len() as int);
            }
            previous = k;
        }
        k += 1;
    }
    parts
}

/// The sum of the first numbers of a list does not depend on what follows
/// them.
proof fn lemma_sum_first_prefix(short: Seq<u8>, long: Seq<u8>, count: int)
    requires
        0 <= count <= short.len() <= long.len(),
        forall|i: int| 0 <= i < short.len() ==> short[i] == long[i],
    ensures
        sum_first(short, count) == sum_first(long, count),
    decreases count,
{
    if count > 0 {
        lemma_sum_first_prefix(short, long, count - 1);
    }
}

/// A distribution of lists of trees whose sizes add up to no more than
/// `maximum_size_sum`.
struct RegexTreeVec<'a> {
    alphabet_set: &'a AlphabetSet,
    /// maximum sum of the sizes of the generated trees
    maximum_size_sum: u8,
}

impl<'a> RegexTreeVec<'a> {
    /// The distribution of the lists of subtrees for a tree of the given
    /// distribution.
    fn from(d: BoundedRegexAstDistribution<'a>) -> (r: RegexTreeVec<'a>)
        ensures
            r.alphabet_set == d.alphabet_set,
            r.maximum_size_sum == d.max_tree_size,
    {
        RegexTreeVec { alphabet_set: d.alphabet_set, maximum_size_sum: d.max_tree_size }
    }

    /// Parts the size at random and generates a tree within each part.
    fn sample(&self) -> (trees: Vec<RegexAst>)
        requires
            self.alphabet_set.0@.len() > 0,
            self.maximum_size_sum < u8::MAX,
        ensures
            self.maximum_size_sum >= 1 ==> trees@.len() >= 1,
            node_count_first(views_of(trees@), trees@.len() as int) <= self.maximum_size_sum,
            parted(views_of(trees@), self.maximum_size_sum as int),
            forall|i: int|
                0 <= i < trees@.len() ==> (#[trigger] views_of(trees@)[i]).proper() && drawn_from(
                    views_of(trees@)[i],
                    self.alphabet_set.0@,
                ),
        decreases self.maximum_size_sum, 3int,
    {
        let sizes = PartitionTreeSize { max_sum: self.maximum_size_sum }.sample();
        proof {
            lemma_sum_bounds(sizes@, sizes@.len() as int);
        }
        let trees = self.trees_of_sizes(&sizes);
        proof {
            let all = views_of(trees@);
            assert(all.len() == trees@.len());
            lemma_nodes_within_sizes(all, sizes@, sizes@.len() as int);
            assert(shares(sizes@, self.maximum_size_sum as int, all.len() as int));
            assert forall|i: int| 0 <= i < all.len() implies (#[trigger] all[i]).proper()
                && drawn_from(all[i], self.alphabet_set.0@) by {
                assert(generated_within(all[i], self.alphabet_set.0@, sizes@[i] as int));
            }
        }
        trees
    }

    /// The trees for drawn sizes: one tree for each size, in order, each
    /// generated within its size.
    fn trees_of_sizes(&self, sizes: &Vec<u8>) -> (trees: Vec<RegexAst>)
        requires
            self.alphabet_set.0@.len() > 0,
            forall|i: int| 0 <= i < sizes@.len() ==> sizes@[i] <= self.maximum_size_sum,
        ensures
            trees@.len() == sizes@.len(),
            forall|i: int|
                0 <= i < trees@.len() ==> generated_within(
                    #[trigger] views_of(trees@)[i],
                    self.alphabet_set.0@,
                    sizes@[i] as int,
                ) && affordable(views_of(trees@)[i], sizes@[i] as int),
        decreases self.maximum_size_sum, 2int,
    {
        let mut trees: Vec<RegexAst> = Vec::new();
        let mut i: usize = 0;
        while i < sizes.len()
            invariant
                i <= sizes.len(),
                trees@.len() == i,
                self.alphabet_set.0@.len() > 0,
                forall|k: int| 0 <= k < sizes@.len() ==> sizes@[k] <= self.maximum_size_sum,
                forall|k: int|
                    0 <= k < trees@.len() ==> generated_within(
                        #[trigger] views_of(trees@)[k],
                        self.alphabet_set.0@,
                        sizes@[k] as int,
                    ) && affordable(views_of(trees@)[k], sizes@[k] as int),
            decreases sizes.len() - i,
        {
            let size = sizes[i];
            let tree = BoundedRegexAstDistribution {
                alphabet_set: self.alphabet_set,
                max_tree_size: size,
            }.sample();
            let ghost before = views_of(trees@);
            trees.push(tree);
            proof {
                let after = views_of(trees@);
                assert(after[i as int] == tree@);
                assert forall|k: int| 0 <= k < before.len() implies before[k] == after[k] by {
                    assert(trees@[k] == trees@.drop_last()[k]);
                }
            }
            i += 1;
        }
        trees
    }
}

/// Trees of which each has no more nodes than its size, a positive
/// number, have together no more nodes than the sizes add up to.
proof fn lemma_nodes_within_sizes(items: Seq<Expression>, sizes: Seq<u8>, count: int)
    requires
        0 <= count <= items.len(),
        items.len() == sizes.len(),
        forall|i: int| 0 <= i < sizes.len() ==> sizes[i] >= 1,
        forall|i: int|
            0 <= i < items.len() ==> (#[trigger] items[i]).node_count() <= if sizes[i] < 1 {
                1
            } else {
                sizes[i] as int
            },
    ensures
        node_count_first(items, count) <= sum_first(sizes, count),
    decreases count,
{
    if count > 0 {
        lemma_nodes_within_sizes(items, sizes, count - 1);
        assert(items[count - 1].node_count() <= sizes[count - 1]);
    }
}

/// A part of a sum of natural numbers is no more than the sum.
proof fn lemma_sum_bounds(parts: Seq<u8>, count: int)
    requires
        0 <= count <= parts.len(),
    ensures
        sum_first(parts, count) >= 0,
        forall|i: int| 0 <= i < count ==> parts[i] <= sum_first(parts, count),
    decreases count,
{
    if count > 0 {
        lemma_sum_bounds(parts, count - 1);
    }
}

/// A distribution of trees of no more than `max_tree_size` nodes.
struct BoundedRegexAstDistribution<'a> {
    alphabet_set: &'a AlphabetSet,
    max_tree_size: u8,
}

impl<'a> BoundedRegexAstDistribution<'a> {
    /// The distribution with the same letters and another size.
    fn tree_size_replaced(&self, new_max_tree_size: u8) -> (r: Self)
        ensures
            r.alphabet_set == self.alphabet_set,
            r.max_tree_size == new_max_tree_size,
    {
        BoundedRegexAstDistribution {
            alphabet_set: self.alphabet_set,
            max_tree_size: new_max_tree_size,
        }
    }

    /// The distribution with the size less by one. The size may not be 0.
    fn tree_size_decremented(&self) -> (r: Self)
        requires
            self.max_tree_size >= 1,
        ensures
            r.alphabet_set == self.alphabet_set,
            r.max_tree_size == self.max_tree_size - 1,
    {
        self.tree_size_replaced(self.max_tree_size - 1)
    }

    /// Generates a random tree: the kind of its root is drawn with fixed
    /// weights, of which those of the kinds that the size cannot afford are
    /// 0. A star takes two nodes at least, a concatenation and an
    /// alternation three.
    fn sample(&self) -> (tree: RegexAst)
        requires
            self.alphabet_set.0@.len() > 0,
        ensures
            generated_within(tree@, self.alphabet_set.0@, self.max_tree_size as int),
            affordable(tree@, self.max_tree_size as int),
            weights_for(self.max_tree_size as int)[kind_of(tree@)] > 0,
        decreases self.max_tree_size, 1int,
    {
        let case_weights = case_weights(self.max_tree_size);
        proof {
            lemma_total_of_five(case_weights@);
        }
        let case_index = random_index(&case_weights);
        self.sample_of_kind(case_index)
    }

    /// The tree for a drawn kind: `case_index` is the place of the kind in
    /// the list of weights. `ε` stands alone and a literal gets a random
    /// letter; a star gets a random tree within the rest of the size, a
    /// concatenation and an alternation random trees within a parting of
    /// the rest.
    fn sample_of_kind(&self, case_index: usize) -> (tree: RegexAst)
        requires
            self.alphabet_set.0@.len() > 0,
            case_index < 5,
            weights_for(self.max_tree_size as int)[case_index as int] > 0,
        ensures
            kind_of(tree@) == case_index,
            generated_within(tree@, self.alphabet_set.0@, self.max_tree_size as int),
            affordable(tree@, self.max_tree_size as int),
        decreases self.max_tree_size, 0int,
    {
        let alphabets = self.alphabet_set;
        let max_tree_size = self.max_tree_size;
        if case_index == 0 {
            RegexAst::Epsilon
        } else if case_index == 1 {
            RegexAst::Literal(alphabet_distribution(alphabets))
        } else if case_index == 2 {
            let inner = self.tree_size_decremented().sample();
            let tree = RegexAst::Star(Box::new(inner));
            assert(tree@ == Expression::Star(Box::new(inner@)));
            tree
        } else if case_index == 3 {
            let parts = RegexTreeVec::from(self.tree_size_decremented()).sample();
            let tree = RegexAst::Concatenation(parts);
            proof {
                lemma_generated_list(tree@, alphabets.0@, max_tree_size as int);
                assert(tree@ == Expression::Concatenation(views_of(parts@)));
            }
            tree
        } else {
            let parts = RegexTreeVec::from(self.tree_size_decremented()).sample();
            let tree = RegexAst::Alternation(parts);
            proof {
                lemma_generated_list(tree@, alphabets.0@, max_tree_size as int);
                assert(tree@ == Expression::Alternation(views_of(parts@)));
            }
            tree
        }
    }
}

/// The weights of the cases to choose from when a tree of the size is
/// generated: `Epsilon`, `Literal`, `Star`, `Concatenation`, `Alternation`.
pub fn case_weights(max_tree_size: u8) -> (weights: Vec<u32>)
    ensures
        weights@ == weights_for(max_tree_size as int),
{
    let mut weights: Vec<u32> = Vec::new();
    weights.push(2);
    weights.push(10);
    weights.push(if max_tree_size >= 2 { 6 } else { 0 });
    weights.push(if max_tree_size >= 3 { 4 } else { 0 });
    weights.push(if max_tree_size >= 3 { 4 } else { 0 });
    assert(weights@ =~= weights_for(max_tree_size as int));
    weights
}

/// The sum of five weights.
proof fn lemma_total_of_five(weights: Seq<u32>)
    requires
        weights.len() == 5,
    ensures
        total_weight(weights) == weights[0] + weights[1] + weights[2] + weights[3] + weights[4],
{
    let w4 = weights.drop_last();
    let w3 = w4.drop_last();
    let w2 = w3.drop_last();
    let w1 = w2.drop_last();
    let w0 = w1.drop_last();
    assert(total_weight(w0) == 0);
    assert(total_weight(w1) == weights[0]);
    assert(total_weight(w2) == weights[0] + weights[1]);
    assert(total_weight(w3) == weights[0] + weights[1] + weights[2]);
    assert(total_weight(w4) == weights[0] + weights[1] + weights[2] + weights[3]);
}

/// A concatenation or an alternation of generated parts is generated
/// within the size of the parts and one more.
proof fn lemma_generated_list(e: Expression, letters: Seq<Alphabet>, size: int)
    requires
        e is Concatenation || e is Alternation,
        e.children().len() >= 1,
        node_count_first(e.children(), e.children().len() as int) <= size - 1,
        forall|i: int|
            0 <= i < e.children().len() ==> (#[trigger] e.children()[i]).proper() && drawn_from(
                e.children()[i],
                letters,
            ),
    ensures
        generated_within(e, letters, size),
{
    assert forall|x: Alphabet| e.uses(x) implies letters.contains(x) by {
        let i = choose|i: int| 0 <= i < e.children().len() && (#[trigger] e.children()[i]).uses(x);
        assert(drawn_from(e.children()[i], letters));
    }
}

/// A random tree over the letters, of no more than `tree_size` nodes,
/// and of one node where the size is less: a tree that the size affords.
pub fn generate_ast_smaller_than(alphabets: &AlphabetSet, tree_size: u8) -> (tree: RegexAst)
    requires
        alphabets.0@.len() > 0,
    ensures
        generated_within(tree@, alphabets.0@, tree_size as int),
        affordable(tree@, tree_size as int),
        weights_for(tree_size as int)[kind_of(tree@)] > 0,
{
    BoundedRegexAstDistribution { alphabet_set: alphabets, max_tree_size: tree_size }.sample()
}

/// Generates the expression of a quiz of the given difficulty: random
/// trees of no more than `MAX_QUIZ_TREE_SIZE` nodes over the letters of the
/// difficulty are tried until one is good as a quiz problem, and that one
/// is returned.
///
/// `None` where the difficulty is 0, and where `MAX_GENERATION_ATTEMPTS`
/// trees in a row were no good. Whether a tree is good rests on the words
/// that are drawn, so `None` can come back for every difficulty.
pub fn randomly_generate(diff: &Difficulty) -> (r: Option<RegexAst>)
    ensures
        diff.0 == 0 ==> r is None,
        r matches Some(ast) ==> generated_within(
            ast@,
            leading_letters(diff.0 as nat),
            MAX_QUIZ_TREE_SIZE as int,
        ) && affordable(ast@, MAX_QUIZ_TREE_SIZE as int) && judged_good(
            ast@,
            leading_letters(diff.0 as nat),
        ),
{
    if diff.0 == 0 {
        return None;
    }
    let alphabets = alphabets_used_with(diff);
    let mut attempts: u32 = 0;
    while attempts < MAX_GENERATION_ATTEMPTS
        invariant
            alphabets.0@ == leading_letters(diff.0 as nat),
            alphabets.0@.len() > 0,
        decreases MAX_GENERATION_ATTEMPTS - attempts,
    {
        let ast = generate_ast_smaller_than(&alphabets, MAX_QUIZ_TREE_SIZE);
        if good_as_a_quiz_problem(&alphabets, &ast) {
            return Some(ast);
        }
        attempts += 1;
    }
    None
}

} // verus!
