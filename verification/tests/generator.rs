use std::collections::HashSet;

use rt_matchmaking::generator::generator::RequestNumbering;

#[test]
fn numbered_batch_has_one_request_per_rating() {
    let mut numbering = RequestNumbering::new();

    let batch = numbering.number_batch(&vec![900, 1000, 1100, 1200, 1300, 1400, 1500, 1600], 42);

    assert_eq!(batch.len(), 8);
    assert_eq!(batch[3].skill_rating, 1200);
    assert!(batch.iter().all(|request| request.submission_timestamp == 42));
    assert_eq!(numbering.generated_sample_count(), 8);
}

#[test]
fn request_ids_are_unique_across_batches_of_one_numbering() {
    let mut numbering = RequestNumbering::new();

    let mut ids: Vec<u32> = numbering.number_batch(&vec![1000; 5_000], 1).iter().map(|r| r.request_id).collect();
    ids.extend(numbering.number_batch(&vec![1000; 5_000], 2).iter().map(|r| r.request_id));
    ids.push(numbering.next_request(1000, 3).request_id);
    let unique: HashSet<u32> = ids.iter().copied().collect();

    assert_eq!(unique.len(), ids.len());
    assert_eq!(ids[0], 1);
    assert_eq!(ids[10_000], 10_001);
}
