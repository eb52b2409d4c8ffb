//! Verified core of a music-library playlist synchroniser.
//!
//! The library keeps a local cache of saved albums and liked tracks,
//! reconciles newly saved items into an album-grouped, recency-ordered
//! track sequence, diffs that sequence against a playlist's current
//! contents, plans batched additions and removals under the remote
//! API's page limits, and trims playlists without splitting an album
//! across the trim boundary.  All remote I/O lives outside this crate;
//! every function here is pure logic over plain values, except for the
//! random sampling and text folding it takes from its dependencies.

mod conversion;
mod model;
mod playlists;
mod random;
mod retrieve;
mod storage;
mod textops;

pub use conversion::album_track_ids;
pub use conversion::saved_albums_to_albums;
pub use conversion::saved_albums_to_saved_tracks;
pub use conversion::saved_tracks_to_tracks;
pub use conversion::spec_album_time;
pub use conversion::spec_album_track_ids;
pub use conversion::spec_assign_times;
pub use conversion::spec_track_ids;
pub use conversion::tracks_to_ids;
pub use model::Album;
pub use model::AlbumData;
pub use model::SavedAlbum;
pub use model::SavedAlbumData;
pub use model::SavedTrack;
pub use model::SavedTrackData;
pub use model::SyncError;
pub use model::Track;
pub use model::TrackData;
pub use model::clone_opt_string;
pub use model::clone_strings;
pub use playlists::Batch;
pub use playlists::BatchData;
pub use playlists::batches_ids_flat;
pub use playlists::contains_id;
pub use playlists::dedup_track_ids;
pub use playlists::diff_against_playlist;
pub use playlists::lemma_diff_partition;
pub use playlists::lemma_trim_respects_albums;
pub use playlists::pages_flat;
pub use playlists::paginate_vec;
pub use playlists::plan_playlist_trim;
pub use playlists::plan_track_additions;
pub use playlists::spec_albums_contiguous;
pub use playlists::spec_dedup_ids;
pub use playlists::spec_new_segment;
pub use playlists::spec_old_segment;
pub use playlists::spec_present;
pub use playlists::spec_trim_boundary;
pub use playlists::trim_boundary;
pub use random::everything_tracks;
pub use random::weekly_sample_tracks;
pub use retrieve::arrange_recent_tracks;
pub use retrieve::earliest_added;
pub use retrieve::pred_album_in;
pub use retrieve::pred_album_is;
pub use retrieve::pred_id_not_in;
pub use retrieve::pred_playable;
pub use retrieve::recently_added_tracks;
pub use retrieve::select_recent_albums;
pub use retrieve::select_recent_liked;
pub use retrieve::spec_album_list;
pub use retrieve::spec_album_max_time;
pub use retrieve::spec_earliest;
pub use retrieve::spec_max_songs;
pub use retrieve::spec_merge_recent;
pub use retrieve::spec_saved_contiguous;
pub use retrieve::spec_saved_ids;
pub use retrieve::spec_select_albums;
pub use retrieve::spec_select_liked;
pub use storage::GenreGroup;
pub use storage::GenreGroupData;
pub use storage::LibraryDatabase;
pub use storage::album_key;
pub use storage::last_with_key;
pub use storage::lemma_merge_char;
pub use storage::lemma_merge_idempotent;
pub use storage::pred_matches;
pub use storage::spec_add_album_genres;
pub use storage::spec_compile_genres;
pub use storage::spec_genre_index;
pub use storage::spec_join_spaced;
pub use storage::spec_lookup_track;
pub use storage::spec_merge_keyed;
pub use storage::spec_search_text;
pub use storage::spec_upsert_genre;
pub use storage::track_key;
pub use textops::is_substring;
pub use textops::lower_of;
