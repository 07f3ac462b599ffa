//! A tiny corpus of short sentences to try the model on.

use vstd::prelude::*;

verus! {

/// The number of sentences of the tiny corpus.
pub const TINY_CORPUS_LEN: usize = 46;

/// The sentences of the tiny corpus.
pub const TINY_CORPUS: [&'static str; 46] = [
    "The quick brown fox jumps over the lazy dog.",
    "A speedy red fox leaps above the tired hound.",
    "Swift brown foxes hop across the sleepy canine.",
    "A fast orange fox vaults over the dozing pooch.",
    "The nimble tan fox jumps past the resting dog.",
    "An agile russet fox springs over the snoozing pup.",
    "Quick brown foxes leap over lazy dogs.",
    "A rapid golden fox vaults above the slumbering pet.",
    "The hasty copper-colored fox jumps over the dozing animal.",
    "A brisk chestnut fox leaps past the resting puppy.",
    "The sly brown fox jumps over the lazy hound.",
    "A swift red fox leaps above the tired dog.",
    "Nimble gray foxes hop across the sleepy pup.",
    "A quick silver fox vaults over the dozing canine.",
    "The agile black fox jumps past the resting hound.",
    "An elegant white fox springs over the snoozing pet.",
    "Speedy brown foxes leap over lazy cats.",
    "A nimble golden fox vaults above the slumbering feline.",
    "The graceful silver fox jumps over the dozing kitten.",
    "A sleek black fox leaps past the resting tabby.",
    "The clever brown fox jumps over the drowsy dog.",
    "A lively red fox leaps above the weary hound.",
    "Brisk brown foxes hop across the sluggish canines.",
    "A spry orange fox vaults over the sleeping pooches.",
    "The energetic tan fox jumps past the lounging pups.",
    "An active russet fox springs over the dozing pets.",
    "Quick brown foxes leap over lazy felines.",
    "A rapid golden fox vaults above the slumbering cats.",
    "The vigorous copper-colored fox jumps over the dozing animals.",
    "A spirited chestnut fox leaps past the resting creatures.",
    "The cunning brown fox jumps over the lax hounds.",
    "A fleet red fox leaps above the fatigued dogs.",
    "Agile gray foxes hop across the sluggish puppies.",
    "A deft silver fox vaults over the sleeping canids.",
    "The nimble black fox jumps past the relaxed hounds.",
    "An alert white fox springs over the dozing felines.",
    "Speedy brown foxes leap over lazy primates.",
    "A skillful golden fox vaults above the slumbering apes.",
    "The adept silver fox jumps over the dozing mammals.",
    "A savvy black fox leaps past the resting marsupials.",
    "The smart brown fox jumps over the lethargic dog.",
    "A swift crimson fox vaults above the weary hound.",
    "Agile brownish-red foxes hop across the drowsy canine.",
    "A quick tawny fox springs over the snoozing pooch.",
    "The nimble chocolate-colored fox jumps past the resting doggy.",
    "An alert sandy-colored fox leaps above the slumbering pet.",
];

/// The sentences of the tiny corpus, each as a string of its own, in the
/// order of [`TINY_CORPUS`].
pub fn tiny_corpus() -> (r: Vec<String>)
    ensures
        r.len() == TINY_CORPUS_LEN,
        forall|i: int| 0 <= i < r.len() ==> (#[trigger] r[i])@ == TINY_CORPUS[i]@,
{
    let mut out: Vec<String> = Vec::new();
    let mut i: usize = 0;
    while i < TINY_CORPUS_LEN
        invariant
            i <= TINY_CORPUS_LEN,
            out.len() == i,
            forall|k: int| 0 <= k < i ==> (#[trigger] out[k])@ == TINY_CORPUS[k]@,
        decreases TINY_CORPUS_LEN - i,
    {
        out.push(TINY_CORPUS[i].to_owned());
        i += 1;
    }
    out
}

} // verus!
