//! What holds of tracks: where their fields come from, and what counts as speech.

use vstd::prelude::*;

use crate::relations::stands_in;
use crate::text::has_substring;
use crate::text::lowercase;
use crate::text_laws::law_substring_is_a_piece;
use crate::track::is_track_of;
use crate::track::speaks_of_voice;
use crate::track::SongItem;
use crate::track::TagFields;
use crate::track::Track;

verus! {

/// `word` is one of the six words that tell speech.
pub open spec fn tells_speech(word: Seq<char>) -> bool {
    ||| word == "podcast"@
    ||| word == "audiobook"@
    ||| word == "speech"@
    ||| word == "voice"@
    ||| word == "voz"@
    ||| word == "spoken"@
}

proof fn lemma_speaks(lower: Seq<char>)
    ensures
        speaks_of_voice(lower) <==> exists|word: Seq<char>| #[trigger]
            tells_speech(word) && stands_in(word, lower),
{
    assert forall|word: Seq<char>| #[trigger] tells_speech(word) implies has_substring(
        lower,
        word,
    ) == stands_in(word, lower) by {
        law_substring_is_a_piece(lower, word);
    }
    assert(tells_speech("podcast"@));
    assert(tells_speech("audiobook"@));
    assert(tells_speech("speech"@));
    assert(tells_speech("voice"@));
    assert(tells_speech("voz"@));
    assert(tells_speech("spoken"@));
}

/// A track is speech where a word that tells speech stands in its lowercase path, whatever its tag
/// says, and where one stands in the lowercase genre of its tag. It is speech in no other case.
pub proof fn law_speech_is_told(
    r: Track,
    path: Seq<char>,
    stem: Option<Seq<char>>,
    tag: Option<TagFields>,
)
    requires
        is_track_of(r, path, stem, tag),
    ensures
        forall|word: Seq<char>| #[trigger]
            tells_speech(word) && stands_in(word, lowercase(path)) ==> r.is_voice,
        tag is Some && tag->0.genre is Some ==> forall|word: Seq<char>| #[trigger]
            tells_speech(word) && stands_in(word, lowercase(tag->0.genre->0@)) ==> r.is_voice,
        r.is_voice ==> exists|word: Seq<char>|
            {
                &&& #[trigger] tells_speech(word)
                &&& {
                    ||| stands_in(word, lowercase(path))
                    ||| tag is Some && tag->0.genre is Some && stands_in(
                        word,
                        lowercase(tag->0.genre->0@),
                    )
                }
            },
{
    lemma_speaks(lowercase(path));
    if let Some(t) = tag {
        if let Some(g) = t.genre {
            lemma_speaks(lowercase(g@));
        }
    }
}

/// The title, the artist and the album of a track are those of its tag where the tag has them. A
/// title that it lacks is the file stem, or the path where there is no stem; an artist that it
/// lacks is unknown, and an album that it lacks is empty. The path is that of the file.
pub proof fn law_fields_come_from_the_tag(
    r: Track,
    path: Seq<char>,
    stem: Option<Seq<char>>,
    tag: Option<TagFields>,
)
    requires
        is_track_of(r, path, stem, tag),
    ensures
        r.path@ == path,
        tag is Some && tag->0.title is Some ==> r.title@ == tag->0.title->0@,
        tag is None || tag->0.title is None ==> {
            &&& stem matches Some(s) ==> r.title@ == s
            &&& stem is None ==> r.title@ == path
        },
        tag is Some && tag->0.artist is Some ==> r.artist@ == tag->0.artist->0@,
        tag is None || tag->0.artist is None ==> r.artist@ == "Artista desconhecido"@,
        tag is Some && tag->0.album is Some ==> r.album@ == tag->0.album->0@,
        tag is None || tag->0.album is None ==> r.album@.len() == 0,
{
}

/// A row of a song list has the fields of its track.
pub proof fn law_song_row_shows(item: SongItem, t: Track)
    requires
        item.shows(t),
    ensures
        item.title@ == t.title@,
        item.artist@ == t.artist@,
        item.album@ == t.album@,
        item.path@ == t.path@,
        item.is_voice == t.is_voice,
{
}

} // verus!
