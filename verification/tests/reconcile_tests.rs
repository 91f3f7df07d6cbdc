use musync::models::ArtistData;
use musync::reconcile::{
    compare_album_lists, interpret_artist_index, plan_artist, ApiErrorInfo, ArtistIndexResponse,
    ArtistPlan, CompareError, RemoteArtistSummary,
};

fn local_record(names: &[&str]) -> ArtistData {
    let albums: Vec<(String, String)> = names
        .iter()
        .map(|n| (n.to_string(), format!("/m/Artist/{}", n)))
        .collect();
    ArtistData {
        album_count: albums.len(),
        last_modified: 0,
        albums,
    }
}

fn remote(id: &str, name: &str, count: usize) -> RemoteArtistSummary {
    RemoteArtistSummary {
        remote_id: id.to_string(),
        name: name.to_string(),
        remote_album_count: count,
    }
}

#[test]
fn test_equal_counts_trigger_shortcut() {
    // Local {A, B, C} and remote {B, C, D} differ in content, but with
    // equal counts no diff is computed: nothing is reported missing.
    let record = local_record(&["A", "B", "C"]);
    let plan = plan_artist(Some(record), 3);
    assert!(matches!(plan, ArtistPlan::CountsMatch));
    let missing: Vec<String> = match plan {
        ArtistPlan::CompareAlbums(d) => {
            let remote_names = vec!["B".to_string(), "C".to_string(), "D".to_string()];
            compare_album_lists(&d.albums, &remote_names).missing_remotely
        }
        _ => Vec::new(),
    };
    assert!(missing.is_empty());
}

#[test]
fn test_unequal_counts_compute_real_diff() {
    let record = local_record(&["A", "B", "C"]);
    let plan = plan_artist(Some(record), 4);
    let d = match plan {
        ArtistPlan::CompareAlbums(d) => d,
        _ => panic!("counts 3 vs 4 must compare albums"),
    };
    let remote_names = vec![
        "B".to_string(),
        "C".to_string(),
        "D".to_string(),
        "E".to_string(),
    ];
    let diff = compare_album_lists(&d.albums, &remote_names);
    assert_eq!(diff.missing_remotely, vec!["/m/Artist/A".to_string()]);
    assert_eq!(
        diff.missing_locally,
        vec!["D".to_string(), "E".to_string()]
    );
}

#[test]
fn test_diff_matches_spec_example() {
    // Local albums {A, B, C}, remote albums {B, C, D}:
    // missing_remotely = {A}, missing_locally = {D}.
    let record = local_record(&["A", "B", "C"]);
    let remote_names = vec!["B".to_string(), "C".to_string(), "D".to_string()];
    let diff = compare_album_lists(&record.albums, &remote_names);
    assert_eq!(diff.missing_remotely, vec!["/m/Artist/A".to_string()]);
    assert_eq!(diff.missing_locally, vec!["D".to_string()]);
}

#[test]
fn test_diff_cleans_remote_names() {
    let record = local_record(&["Meddle", "Animals"]);
    let remote_names = vec!["Meddle [Remastered]".to_string()];
    let diff = compare_album_lists(&record.albums, &remote_names);
    // The cleaned remote name matches the local one; only Animals is missing.
    assert_eq!(
        diff.missing_remotely,
        vec!["/m/Artist/Animals".to_string()]
    );
    assert!(diff.missing_locally.is_empty());
}

#[test]
fn test_diff_resolves_last_path_for_duplicate_names() {
    let albums = vec![
        ("Live".to_string(), "/m/Artist/Live [1975]".to_string()),
        ("Live".to_string(), "/m/Artist/Live [1980]".to_string()),
    ];
    let remote_names: Vec<String> = Vec::new();
    let diff = compare_album_lists(&albums, &remote_names);
    // One entry per distinct name; a collision is resolved last-write-wins,
    // so the later pair's path is the one returned.
    assert_eq!(
        diff.missing_remotely,
        vec!["/m/Artist/Live [1980]".to_string()]
    );
}

#[test]
fn test_plan_without_local_record() {
    let plan = plan_artist(None, 5);
    assert!(matches!(plan, ArtistPlan::NoLocalData));
}

#[test]
fn test_interpret_error_envelope() {
    let resp = ArtistIndexResponse {
        error: Some(ApiErrorInfo {
            code: 40,
            message: "Wrong username or password".to_string(),
        }),
        index: Vec::new(),
    };
    match interpret_artist_index(resp) {
        Err(CompareError::ApiError { code, message }) => {
            assert_eq!(code, 40);
            assert_eq!(message, "Wrong username or password");
        }
        _ => panic!("an error envelope must become an ApiError"),
    }
}

#[test]
fn test_interpret_flattens_index_groups() {
    let resp = ArtistIndexResponse {
        error: None,
        index: vec![
            vec![remote("1", "Abba", 2), remote("2", "Accept", 1)],
            vec![remote("3", "Beatles", 9)],
        ],
    };
    let artists = interpret_artist_index(resp).unwrap();
    let names: Vec<&str> = artists.iter().map(|a| a.name.as_str()).collect();
    assert_eq!(names, vec!["Abba", "Accept", "Beatles"]);
    assert_eq!(artists[2].remote_id, "3");
    assert_eq!(artists[2].remote_album_count, 9);
}
