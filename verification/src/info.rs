//! What is known of a file beyond its frames and channels.

use vstd::prelude::*;

verus! {

/// The codec parameters of an audio track, carried through unread.
#[verifier::external_type_specification]
#[verifier::external_body]
pub struct ExAudioCodecParameters(symphonia::core::codecs::audio::AudioCodecParameters);

/// A revision of the metadata of a file, carried through unread.
#[verifier::external_type_specification]
#[verifier::external_body]
pub struct ExMetadataRevision(symphonia::core::meta::MetadataRevision);

/// The metadata log of a reader: a queue of revisions.
#[verifier::external_type_specification]
#[verifier::external_body]
pub struct ExMetadata<'a>(symphonia::core::meta::Metadata<'a>);

/// The revisions that a metadata log holds, the oldest first.
pub uninterp spec fn metadata_revisions(metadata: symphonia::core::meta::Metadata<'_>) -> Seq<
    symphonia::core::meta::MetadataRevision,
>;

/// The log with only the latest revision kept, if there is one.
pub open spec fn latest_only<T>(revisions: Seq<T>) -> Seq<T> {
    if revisions.len() == 0 {
        revisions
    } else {
        seq![revisions.last()]
    }
}

/// `Metadata::skip_to_latest` drops all revisions but the latest, and gives that one. It gives
/// nothing if there is no revision at all.
pub assume_specification<'a, 'b>[ symphonia::core::meta::Metadata::<'a>::skip_to_latest ](
    metadata: &'b mut symphonia::core::meta::Metadata<'a>,
) -> (latest: Option<&'b symphonia::core::meta::MetadataRevision>)
    ensures
        metadata_revisions(*final(metadata)) == latest_only(metadata_revisions(*old(metadata))),
        latest is Some <==> metadata_revisions(*old(metadata)).len() > 0,
        latest matches Some(revision) ==> *revision == metadata_revisions(*old(metadata)).last(),
;

/// The clone of a metadata revision has the same contents.
pub assume_specification[ <symphonia::core::meta::MetadataRevision as Clone>::clone ](
    revision: &symphonia::core::meta::MetadataRevision,
) -> (clone: symphonia::core::meta::MetadataRevision)
    ensures
        clone == *revision,
;

/// The clone of codec parameters has the same contents.
pub assume_specification[ <symphonia::core::codecs::audio::AudioCodecParameters as Clone>::clone ](
    params: &symphonia::core::codecs::audio::AudioCodecParameters,
) -> (clone: symphonia::core::codecs::audio::AudioCodecParameters)
    ensures
        clone == *params,
;

/// What a decoder tells of a file.
#[derive(Debug, Clone)]
pub struct SymphoniaDecoderInfo {
    pub codec_params: symphonia::core::codecs::audio::AudioCodecParameters,
    pub metadata: Option<symphonia::core::meta::MetadataRevision>,
}

} // verus!
