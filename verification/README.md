# scan_control

The verified core of a viewer and controller for a scanning probe
microscope. The library in `src/` holds the logic, each function with a
contract that Verus proves; `app/` is the desktop front end around it.

## Library modules

- `undo_queue`: the undo history (`UndoQueue`, `StateModify`).
- `selectable_list`, `list_ops`: the layer list with click selection and
  the undoable edits (delete, move forward, move backward).
- `selection`: single selection over a vector of members.
- `file_tree`: a folder tree of loaded files numbered in preorder, with
  selection by clicks and the edits that file-system changes make
  (create, delete, rename, move); `indexer`: paths of child positions.
- `modification`: the machine that turns raw watcher events into
  creations, deletions, renames and moves.
- `worker_loop`: reconnect, retry and back-off decisions of a worker
  talking to the scan controller.
- `channel_state`, `scan_status`, `course_motion`: channel choice, scan
  line tracking and coarse-motor commands.
- `list_sync`: the rows to write when the stored layer order is brought
  in line with the list.
- `frame_codec`: the stored byte form of scan frames.
- `stamp_name`, `eng_fmt`, `view_object`, `image_options`: naming of
  stamped scans, SI prefixes, layer kinds and display options.
- `single`, `ok_trace`, `dispatch`, `scale_bar`, `tree_view`: small helpers.

## Front end

`app/` runs the window with eframe and egui, watches the data folder with
notify, and stores projects with redb.
