//! Reserved strings that never stand for ordinary vocabulary content.

use vstd::prelude::*;

verus! {

/// Placeholder for a word that is not in the vocabulary.
pub const UNK: &'static str = "<unk>";

/// Marks the start of a sentence.
pub const SOS: &'static str = "<s>";

/// Marks the end of a sentence.
pub const EOS: &'static str = "</s>";

/// Marks the start of a word in a symbol sequence.
pub const SOW: &'static str = "<w>";

/// Marks the end of a word in a symbol sequence.
pub const EOW: &'static str = "</w>";

/// The five sentinels are five different strings.
pub proof fn lemma_sentinels_are_distinct()
    ensures
        UNK@ != SOS@,
        UNK@ != EOS@,
        UNK@ != SOW@,
        UNK@ != EOW@,
        SOS@ != EOS@,
        SOS@ != SOW@,
        SOS@ != EOW@,
        EOS@ != SOW@,
        EOS@ != EOW@,
        SOW@ != EOW@,
{
    reveal_strlit("<unk>");
    reveal_strlit("<s>");
    reveal_strlit("</s>");
    reveal_strlit("<w>");
    reveal_strlit("</w>");
    assert(UNK@.len() == 5 && UNK@[1] == 'u');
    assert(SOS@.len() == 3 && SOS@[1] == 's');
    assert(EOS@.len() == 4 && EOS@[2] == 's');
    assert(SOW@.len() == 3 && SOW@[1] == 'w');
    assert(EOW@.len() == 4 && EOW@[2] == 'w');
}

} // verus!
